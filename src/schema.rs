//! The JSON Type Definition schema that inference produces, and the
//! translation of an inferred-schema tree into it.
use crate::inferred::{
    branch_tags, required_keys, string_set, Branch, InferredSchema, Prop, Variant,
};
use crate::number::NumType;
use vstd::prelude::*;

verus! {

broadcast use vstd::std_specs::vec::group_vec_axioms;

/// The primitive types of the type form.
#[derive(Clone, Copy, PartialEq, Eq, Structural, Debug)]
pub enum TypeName {
    Boolean,
    String,
    Timestamp,
    Number(NumType),
}

/// A JSON Type Definition schema. The empty form accepts every value,
/// `null` included, and so carries no `nullable` flag.
#[derive(Debug, PartialEq, Eq)]
pub enum Schema {
    Empty,
    Type { nullable: bool, type_: TypeName },
    Enum { nullable: bool, items: Vec<String> },
    Elements { nullable: bool, elements: Box<Schema> },
    Properties { nullable: bool, required: Vec<Entry>, optional: Vec<Entry> },
    Values { nullable: bool, values: Box<Schema> },
    Discriminator { nullable: bool, tag: String, mapping: Vec<Entry> },
}

/// A named sub-schema: a property, or a branch of a tagged union.
#[derive(Debug, PartialEq, Eq)]
pub struct Entry {
    pub key: String,
    pub schema: Schema,
}

/// The top level of a schema, as a mathematical value.
pub enum Form {
    Empty,
    Type(TypeName),
    Enum(Set<Seq<char>>),
    Elements,
    /// The required and the optional property names.
    Properties(Set<Seq<char>>, Set<Seq<char>>),
    Values,
    /// The tag property and the tag values of the mapping.
    Discriminator(Seq<char>, Set<Seq<char>>),
}

pub open spec fn entry_keys(es: Seq<Entry>) -> Set<Seq<char>> {
    Set::new(|k: Seq<char>| exists|i: int| 0 <= i < es.len() && es[i].key@ == k)
}

pub open spec fn optional_keys(ps: Seq<Prop>) -> Set<Seq<char>> {
    Set::new(|k: Seq<char>| exists|i: int| 0 <= i < ps.len() && ps[i].key@ == k && !ps[i].required)
}

impl Schema {
    pub open spec fn form(&self) -> Form {
        match self {
            Schema::Empty => Form::Empty,
            Schema::Type { type_, .. } => Form::Type(*type_),
            Schema::Enum { items, .. } => Form::Enum(string_set(items@)),
            Schema::Elements { .. } => Form::Elements,
            Schema::Properties { required, optional, .. } => Form::Properties(
                entry_keys(required@),
                entry_keys(optional@),
            ),
            Schema::Values { .. } => Form::Values,
            Schema::Discriminator { tag, mapping, .. } => Form::Discriminator(
                tag@,
                entry_keys(mapping@),
            ),
        }
    }

    /// Whether the schema accepts `null`.
    pub open spec fn accepts_null(&self) -> bool {
        match self {
            Schema::Empty => true,
            Schema::Type { nullable, .. } => *nullable,
            Schema::Enum { nullable, .. } => *nullable,
            Schema::Elements { nullable, .. } => *nullable,
            Schema::Properties { nullable, .. } => *nullable,
            Schema::Values { nullable, .. } => *nullable,
            Schema::Discriminator { nullable, .. } => *nullable,
        }
    }
}

/// The form emitted for a position whose state is `v`.
pub open spec fn emit_form(v: Variant, default: NumType) -> Form {
    match v {
        Variant::Unknown => Form::Empty,
        Variant::Boolean => Form::Type(TypeName::Boolean),
        Variant::Number(k) => Form::Type(TypeName::Number(k)),
        Variant::String => Form::Type(TypeName::String),
        Variant::Timestamp => Form::Type(TypeName::Timestamp),
        Variant::Enum(e) => Form::Enum(string_set(e@)),
        Variant::Elements(_) => Form::Elements,
        Variant::Properties(ps) => Form::Properties(required_keys(ps@), optional_keys(ps@)),
        Variant::Values(_) => Form::Values,
        Variant::Discriminator(t, bs) => Form::Discriminator(t@, branch_tags(bs@)),
        Variant::Any => Form::Empty,
    }
}

/// Whether `s` is the schema emitted for the tree `n`: the top-level form
/// and `nullable` flag, and, recursively, each element, value and property
/// sub-schema is emitted from the sub-tree of its position, and each branch
/// of a tagged union is the object schema emitted from that branch.
pub open spec fn emits_to(n: InferredSchema, s: Schema, default: NumType) -> bool
    decreases n,
{
    &&& s.form() == emit_form(n.variant, default)
    &&& (!(s is Empty) ==> s.accepts_null() == n.nullable)
    &&& match (n.variant, s) {
        (Variant::Enum(e), Schema::Enum { items, .. }) => items@ == e@,
        (Variant::Elements(c), Schema::Elements { elements, .. }) => emits_to(*c, *elements, default),
        (Variant::Values(c), Schema::Values { values, .. }) => emits_to(*c, *values, default),
        (Variant::Properties(ps), Schema::Properties { required, optional, .. }) => {
            &&& forall|j: int| #![trigger required@[j]]
                0 <= j < required@.len() ==> exists|i: int|
                    0 <= i < ps@.len() && (#[trigger] ps@[i]).key@ == required@[j].key@ && ps@[i].required
                        && emits_to(ps@[i].schema, required@[j].schema, default)
            &&& forall|j: int| #![trigger optional@[j]]
                0 <= j < optional@.len() ==> exists|i: int|
                    0 <= i < ps@.len() && (#[trigger] ps@[i]).key@ == optional@[j].key@ && !ps@[i].required
                        && emits_to(ps@[i].schema, optional@[j].schema, default)
        },
        (Variant::Discriminator(_, bs), Schema::Discriminator { mapping, .. }) => {
            &&& mapping@.len() == bs@.len()
            &&& forall|j: int| #![trigger mapping@[j]]
                0 <= j < mapping@.len() ==> mapping@[j].key@ == bs@[j].tag_value@ && branch_form(
                    bs@[j].props@,
                    mapping@[j].schema,
                ) && (mapping@[j].schema matches Schema::Properties { required, optional, .. } && (
                forall|m: int| #![trigger required@[m]]
                    0 <= m < required@.len() ==> exists|i: int| #![trigger bs@[j].props@[i]]
                        0 <= i < bs@[j].props@.len() && bs@[j].props@[i].key@ == required@[m].key@
                            && bs@[j].props@[i].required && emits_to(
                            bs@[j].props@[i].schema,
                            required@[m].schema,
                            default,
                        )) && (forall|m: int| #![trigger optional@[m]]
                    0 <= m < optional@.len() ==> exists|i: int| #![trigger bs@[j].props@[i]]
                        0 <= i < bs@[j].props@.len() && bs@[j].props@[i].key@ == optional@[m].key@
                            && !bs@[j].props@[i].required && emits_to(
                            bs@[j].props@[i].schema,
                            optional@[m].schema,
                            default,
                        )))
        },
        _ => true,
    }
}

/// Whether `s` is a non-nullable object schema whose required and optional
/// names are those of the properties `ps`.
pub open spec fn branch_form(ps: Seq<Prop>, s: Schema) -> bool {
    &&& s.form() == Form::Properties(required_keys(ps), optional_keys(ps))
    &&& !s.accepts_null()
}

proof fn lemma_push_entry(es: Seq<Entry>, e: Entry)
    ensures
        entry_keys(es.push(e)) == entry_keys(es).insert(e.key@),
{
    let q = es.push(e);
    assert(q[es.len() as int] == e);
    assert forall|k: Seq<char>| entry_keys(q).contains(k) implies entry_keys(es).insert(
        e.key@,
    ).contains(k) by {
        let j = choose|j: int| 0 <= j < q.len() && q[j].key@ == k;
        if j < es.len() {
            assert(q[j] == es[j]);
        }
    }
    assert forall|k: Seq<char>| entry_keys(es).contains(k) implies entry_keys(q).contains(k) by {
        let j = choose|j: int| 0 <= j < es.len() && es[j].key@ == k;
        assert(q[j] == es[j]);
    }
    assert(entry_keys(q) =~= entry_keys(es).insert(e.key@));
}

proof fn lemma_take_prop(ps: Seq<Prop>, i: int)
    requires
        0 <= i < ps.len(),
    ensures
        required_keys(ps.take(i + 1)) == (if ps[i].required {
            required_keys(ps.take(i)).insert(ps[i].key@)
        } else {
            required_keys(ps.take(i))
        }),
        optional_keys(ps.take(i + 1)) == (if ps[i].required {
            optional_keys(ps.take(i))
        } else {
            optional_keys(ps.take(i)).insert(ps[i].key@)
        }),
{
    let a = ps.take(i);
    let b = ps.take(i + 1);
    assert(b =~= a.push(ps[i]));
    assert(b[i] == ps[i]);
    assert forall|k: Seq<char>| required_keys(b).contains(k) <==> (required_keys(a).contains(k) || (
    ps[i].required && k == ps[i].key@)) by {
        if required_keys(b).contains(k) {
            let j = choose|j: int| 0 <= j < b.len() && b[j].key@ == k && b[j].required;
            if j < i {
                assert(a[j] == b[j]);
            }
        }
        if required_keys(a).contains(k) {
            let j = choose|j: int| 0 <= j < a.len() && a[j].key@ == k && a[j].required;
            assert(a[j] == b[j]);
        }
    }
    assert forall|k: Seq<char>| optional_keys(b).contains(k) <==> (optional_keys(a).contains(k) || (
    !ps[i].required && k == ps[i].key@)) by {
        if optional_keys(b).contains(k) {
            let j = choose|j: int| 0 <= j < b.len() && b[j].key@ == k && !b[j].required;
            if j < i {
                assert(a[j] == b[j]);
            }
        }
        if optional_keys(a).contains(k) {
            let j = choose|j: int| 0 <= j < a.len() && a[j].key@ == k && !a[j].required;
            assert(a[j] == b[j]);
        }
    }
    if ps[i].required {
        assert(required_keys(b) =~= required_keys(a).insert(ps[i].key@));
        assert(optional_keys(b) =~= optional_keys(a));
    } else {
        assert(required_keys(b) =~= required_keys(a));
        assert(optional_keys(b) =~= optional_keys(a).insert(ps[i].key@));
    }
}

fn copy_strings(v: &Vec<String>) -> (r: Vec<String>)
    ensures
        r@ == v@,
{
    let mut r: Vec<String> = Vec::new();
    let mut i: usize = 0;
    while i < v.len()
        invariant
            0 <= i <= v@.len(),
            r@ == v@.take(i as int),
        decreases v@.len() - i,
    {
        r.push(v[i].clone());
        assert(r@ =~= v@.take(i + 1));
        i = i + 1;
    }
    assert(v@.take(v@.len() as int) =~= v@);
    r
}

/// The required and the optional properties of `ps`, each emitted.
#[verifier::rlimit(60)]
#[verifier::spinoff_prover]
fn emit_props(ps: &Vec<Prop>, default: NumType) -> (r: (Vec<Entry>, Vec<Entry>))
    ensures
        entry_keys(r.0@) == required_keys(ps@),
        entry_keys(r.1@) == optional_keys(ps@),
        forall|j: int| #![trigger r.0@[j]]
            0 <= j < r.0@.len() ==> exists|i: int|
                0 <= i < ps@.len() && (#[trigger] ps@[i]).key@ == r.0@[j].key@ && ps@[i].required && emits_to(
                    ps@[i].schema,
                    r.0@[j].schema,
                    default,
                ),
        forall|j: int| #![trigger r.1@[j]]
            0 <= j < r.1@.len() ==> exists|i: int|
                0 <= i < ps@.len() && (#[trigger] ps@[i]).key@ == r.1@[j].key@ && !ps@[i].required && emits_to(
                    ps@[i].schema,
                    r.1@[j].schema,
                    default,
                ),
    decreases ps,
{
    let mut req: Vec<Entry> = Vec::new();
    let mut opt: Vec<Entry> = Vec::new();
    let mut i: usize = 0;
    assert(entry_keys(req@) =~= required_keys(ps@.take(0)));
    assert(entry_keys(opt@) =~= optional_keys(ps@.take(0)));
    while i < ps.len()
        invariant
            0 <= i <= ps@.len(),
            entry_keys(req@) == required_keys(ps@.take(i as int)),
            entry_keys(opt@) == optional_keys(ps@.take(i as int)),
            forall|j: int| #![trigger req@[j]]
                0 <= j < req@.len() ==> exists|k: int|
                    0 <= k < ps@.len() && (#[trigger] ps@[k]).key@ == req@[j].key@ && ps@[k].required
                        && emits_to(ps@[k].schema, req@[j].schema, default),
            forall|j: int| #![trigger opt@[j]]
                0 <= j < opt@.len() ==> exists|k: int|
                    0 <= k < ps@.len() && (#[trigger] ps@[k]).key@ == opt@[j].key@ && !ps@[k].required
                        && emits_to(ps@[k].schema, opt@[j].schema, default),
        decreases ps@.len() - i,
    {
        let p = &ps[i];
        proof {
            lemma_take_prop(ps@, i as int);
        }
        let e = Entry { key: p.key.clone(), schema: p.schema.emit(default) };
        let ghost old_req = req@;
        let ghost old_opt = opt@;
        if p.required {
            proof {
                lemma_push_entry(req@, e);
            }
            req.push(e);
            assert forall|j: int| #![trigger req@[j]] 0 <= j < req@.len() implies exists|k: int|
                0 <= k < ps@.len() && (#[trigger] ps@[k]).key@ == req@[j].key@ && ps@[k].required
                    && emits_to(ps@[k].schema, req@[j].schema, default) by {
                if j < old_req.len() {
                    assert(req@[j] == old_req[j]);
                } else {
                    assert(req@[j] == e);
                    assert(ps@[i as int].key@ == req@[j].key@);
                }
            }
        } else {
            proof {
                lemma_push_entry(opt@, e);
            }
            opt.push(e);
            assert forall|j: int| #![trigger opt@[j]] 0 <= j < opt@.len() implies exists|k: int|
                0 <= k < ps@.len() && (#[trigger] ps@[k]).key@ == opt@[j].key@ && !ps@[k].required
                    && emits_to(ps@[k].schema, opt@[j].schema, default) by {
                if j < old_opt.len() {
                    assert(opt@[j] == old_opt[j]);
                } else {
                    assert(opt@[j] == e);
                    assert(ps@[i as int].key@ == opt@[j].key@);
                }
            }
        }
        i = i + 1;
    }
    assert(ps@.take(ps@.len() as int) =~= ps@);
    assert forall|j: int| #![trigger req@[j]] 0 <= j < req@.len() implies exists|k: int|
        0 <= k < ps@.len() && (#[trigger] ps@[k]).key@ == req@[j].key@ && ps@[k].required && emits_to(
            ps@[k].schema,
            req@[j].schema,
            default,
        ) by {
        let _ = req@[j].schema;
    }
    assert forall|j: int| #![trigger opt@[j]] 0 <= j < opt@.len() implies exists|k: int|
        0 <= k < ps@.len() && (#[trigger] ps@[k]).key@ == opt@[j].key@ && !ps@[k].required && emits_to(
            ps@[k].schema,
            opt@[j].schema,
            default,
        ) by {
        let _ = opt@[j].schema;
    }
    (req, opt)
}

/// One object schema per branch of a tagged union.
fn emit_branches(bs: &Vec<Branch>, default: NumType) -> (r: Vec<Entry>)
    ensures
        entry_keys(r@) == branch_tags(bs@),
        r@.len() == bs@.len(),
        forall|j: int| #![trigger r@[j]]
            0 <= j < r@.len() ==> r@[j].key@ == bs@[j].tag_value@ && branch_form(bs@[j].props@, r@[j].schema) && (r@[j].schema matches Schema::Properties { required, optional, .. } && (
            forall|m: int| #![trigger required@[m]]
                0 <= m < required@.len() ==> exists|k: int| #![trigger bs@[j].props@[k]]
                    0 <= k < bs@[j].props@.len() && bs@[j].props@[k].key@ == required@[m].key@
                        && bs@[j].props@[k].required && emits_to(bs@[j].props@[k].schema, required@[m].schema, default))
            && (forall|m: int| #![trigger optional@[m]]
                0 <= m < optional@.len() ==> exists|k: int| #![trigger bs@[j].props@[k]]
                    0 <= k < bs@[j].props@.len() && bs@[j].props@[k].key@ == optional@[m].key@
                        && !bs@[j].props@[k].required && emits_to(bs@[j].props@[k].schema, optional@[m].schema, default))),
    decreases bs,
{
    let mut r: Vec<Entry> = Vec::new();
    let mut i: usize = 0;
    while i < bs.len()
        invariant
            0 <= i <= bs@.len(),
            r@.len() == i,
            forall|j: int| 0 <= j < i ==> (#[trigger] r@[j]).key@ == bs@[j].tag_value@,
            forall|j: int| #![trigger r@[j]]
                0 <= j < i ==> branch_form(bs@[j].props@, r@[j].schema) && (r@[j].schema matches Schema::Properties { required, optional, .. } && (
                forall|m: int| #![trigger required@[m]]
                    0 <= m < required@.len() ==> exists|k: int| #![trigger bs@[j].props@[k]]
                        0 <= k < bs@[j].props@.len() && bs@[j].props@[k].key@ == required@[m].key@
                            && bs@[j].props@[k].required && emits_to(bs@[j].props@[k].schema, required@[m].schema, default))
                && (forall|m: int| #![trigger optional@[m]]
                    0 <= m < optional@.len() ==> exists|k: int| #![trigger bs@[j].props@[k]]
                        0 <= k < bs@[j].props@.len() && bs@[j].props@[k].key@ == optional@[m].key@
                            && !bs@[j].props@[k].required && emits_to(bs@[j].props@[k].schema, optional@[m].schema, default))),
        decreases bs@.len() - i,
    {
        let b = &bs[i];
        let (required, optional) = emit_props(&b.props, default);
        let ghost prev = r@;
        let sch = Schema::Properties { nullable: false, required, optional };
        r.push(Entry { key: b.tag_value.clone(), schema: sch });
        proof {
            assert(r@[i as int] == Entry { key: b.tag_value, schema: sch });
            assert forall|j: int| 0 <= j < i implies #[trigger] r@[j] == prev[j] by {}
        }
        i = i + 1;
    }
    assert forall|k: Seq<char>| entry_keys(r@).contains(k) <==> branch_tags(bs@).contains(k) by {
        if entry_keys(r@).contains(k) {
            let j = choose|j: int| 0 <= j < r@.len() && r@[j].key@ == k;
            assert(bs@[j].tag_value@ == k);
        }
        if branch_tags(bs@).contains(k) {
            let j = choose|j: int| 0 <= j < bs@.len() && bs@[j].tag_value@ == k;
            assert(r@[j].key@ == k);
        }
    }
    assert(entry_keys(r@) =~= branch_tags(bs@));
    r
}

impl InferredSchema {
    /// Translates this tree into a schema; `default` is the numeric kind of
    /// positions at which every number fits it.
    pub fn emit(&self, default: NumType) -> (r: Schema)
        ensures
            emits_to(*self, r, default),
        decreases self,
    {
        let nullable = self.nullable;
        match &self.variant {
            Variant::Unknown => Schema::Empty,
            Variant::Boolean => Schema::Type { nullable, type_: TypeName::Boolean },
            Variant::Number(k) => Schema::Type { nullable, type_: TypeName::Number(*k) },
            Variant::String => Schema::Type { nullable, type_: TypeName::String },
            Variant::Timestamp => Schema::Type { nullable, type_: TypeName::Timestamp },
            Variant::Enum(e) => Schema::Enum { nullable, items: copy_strings(e) },
            Variant::Elements(c) => Schema::Elements { nullable, elements: Box::new(c.emit(default)) },
            Variant::Properties(ps) => {
                let (required, optional) = emit_props(ps, default);
                let ghost rq = required@;
                let ghost op = optional@;
                assert forall|j: int| #![trigger rq[j]] 0 <= j < rq.len() implies exists|i: int|
                    0 <= i < ps@.len() && (#[trigger] ps@[i]).key@ == rq[j].key@ && ps@[i].required
                        && emits_to(ps@[i].schema, rq[j].schema, default) by {
                    let _ = rq[j].schema;
                }
                assert forall|j: int| #![trigger op[j]] 0 <= j < op.len() implies exists|i: int|
                    0 <= i < ps@.len() && (#[trigger] ps@[i]).key@ == op[j].key@ && !ps@[i].required
                        && emits_to(ps@[i].schema, op[j].schema, default) by {
                    let _ = op[j].schema;
                }
                Schema::Properties { nullable, required, optional }
            },
            Variant::Values(c) => Schema::Values { nullable, values: Box::new(c.emit(default)) },
            Variant::Discriminator(t, bs) => {
                let mapping = emit_branches(bs, default);
                let ghost mp = mapping@;
                let r = Schema::Discriminator { nullable, tag: t.clone(), mapping };
                proof {
                    assert(mp.len() == bs@.len());
                    assert forall|j: int| #![trigger mp[j]] 0 <= j < mp.len() implies mp[j].key@
                        == bs@[j].tag_value@ && branch_form(bs@[j].props@, mp[j].schema) && (mp[j].schema matches Schema::Properties { required, optional, .. } && (
                        forall|m: int| #![trigger required@[m]]
                            0 <= m < required@.len() ==> exists|i: int| #![trigger bs@[j].props@[i]]
                                0 <= i < bs@[j].props@.len() && bs@[j].props@[i].key@ == required@[m].key@
                                    && bs@[j].props@[i].required && emits_to(bs@[j].props@[i].schema, required@[m].schema, default))
                        && (forall|m: int| #![trigger optional@[m]]
                            0 <= m < optional@.len() ==> exists|i: int| #![trigger bs@[j].props@[i]]
                                0 <= i < bs@[j].props@.len() && bs@[j].props@[i].key@ == optional@[m].key@
                                    && !bs@[j].props@[i].required && emits_to(bs@[j].props@[i].schema, optional@[m].schema, default))) by {
                        let _ = mp[j];
                        let ps = bs@[j].props@;
                        if let Schema::Properties { required, optional, .. } = mp[j].schema {
                            assert forall|m: int| #![trigger required@[m]] 0 <= m < required@.len() implies exists|i: int| #![trigger ps[i]]
                                0 <= i < ps.len() && ps[i].key@ == required@[m].key@ && ps[i].required
                                    && emits_to(ps[i].schema, required@[m].schema, default) by {
                                let _ = required@[m];
                            }
                            assert forall|m: int| #![trigger optional@[m]] 0 <= m < optional@.len() implies exists|i: int| #![trigger ps[i]]
                                0 <= i < ps.len() && ps[i].key@ == optional@[m].key@ && !ps[i].required
                                    && emits_to(ps[i].schema, optional@[m].schema, default) by {
                                let _ = optional@[m];
                            }
                        }
                    }
                    assert(r.form() == emit_form(self.variant, default));
                    assert(emits_to(*self, r, default));
                }
                r
            },
            Variant::Any => Schema::Empty,
        }
    }
}

} // verus!
