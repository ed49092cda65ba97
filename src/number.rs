//! The numeric lattice: classifying a literal into the smallest numeric
//! kind that holds it, and widening two kinds to their least upper bound.
use vstd::prelude::*;
use vstd::string::*;

verus! {

/// The eight numeric kinds of JSON Type Definition.
#[derive(Clone, Copy, PartialEq, Eq, Structural, Debug)]
pub enum NumType {
    Int8,
    Uint8,
    Int16,
    Uint16,
    Int32,
    Uint32,
    Float32,
    Float64,
}

/// A numeric literal as the inference engine sees it: its integer value when
/// it is an integer that fits in an `i64`, and whether a 32-bit float holds it
/// exactly.
#[derive(Clone, Copy, PartialEq, Eq, Structural, Debug)]
pub struct NumberLit {
    pub integer: Option<i64>,
    pub f32_exact: bool,
}

pub open spec fn is_integer_kind(k: NumType) -> bool {
    !(k is Float32) && !(k is Float64)
}

pub open spec fn kind_min(k: NumType) -> int {
    match k {
        NumType::Int8 => -128,
        NumType::Int16 => -32768,
        NumType::Int32 => -2147483648,
        _ => 0,
    }
}

pub open spec fn kind_max(k: NumType) -> int {
    match k {
        NumType::Int8 => 127,
        NumType::Uint8 => 255,
        NumType::Int16 => 32767,
        NumType::Uint16 => 65535,
        NumType::Int32 => 2147483647,
        NumType::Uint32 => 4294967295,
        _ => 0,
    }
}

/// Whether kind `k` represents the literal `n` exactly.
pub open spec fn fits_spec(k: NumType, n: NumberLit) -> bool {
    match k {
        NumType::Float64 => true,
        NumType::Float32 => n.f32_exact,
        _ => n.integer is Some && kind_min(k) <= n.integer->0 && n.integer->0 <= kind_max(k),
    }
}

/// The smallest kind holding `n`, unsigned kinds first.
pub open spec fn classify_spec(n: NumberLit) -> NumType {
    if fits_spec(NumType::Uint8, n) {
        NumType::Uint8
    } else if fits_spec(NumType::Int8, n) {
        NumType::Int8
    } else if fits_spec(NumType::Uint16, n) {
        NumType::Uint16
    } else if fits_spec(NumType::Int16, n) {
        NumType::Int16
    } else if fits_spec(NumType::Uint32, n) {
        NumType::Uint32
    } else if fits_spec(NumType::Int32, n) {
        NumType::Int32
    } else if fits_spec(NumType::Float32, n) {
        NumType::Float32
    } else {
        NumType::Float64
    }
}

/// The widening order: int8 <= int16 <= int32, uint8 <= uint16 <= uint32,
/// uint8 <= int16 (and so <= int32), and every kind <= float64.
pub open spec fn widens_to(a: NumType, b: NumType) -> bool {
    a == b || b is Float64 || match a {
        NumType::Int8 => b is Int16 || b is Int32,
        NumType::Int16 => b is Int32,
        NumType::Uint8 => b is Uint16 || b is Uint32 || b is Int16 || b is Int32,
        NumType::Uint16 => b is Uint32,
        _ => false,
    }
}

pub open spec fn join_spec(a: NumType, b: NumType) -> NumType {
    if widens_to(a, b) {
        b
    } else if widens_to(b, a) {
        a
    } else if (a is Int8 && b is Uint8) || (a is Uint8 && b is Int8) {
        NumType::Int16
    } else {
        NumType::Float64
    }
}

/// The kind that a number `n` adds to its position: the default kind when
/// that holds `n`, else the smallest kind that does.
pub open spec fn classify_default(n: NumberLit, default: NumType) -> NumType {
    if fits_spec(default, n) {
        default
    } else {
        classify_spec(n)
    }
}

pub fn fits(k: NumType, n: NumberLit) -> (r: bool)
    ensures
        r == fits_spec(k, n),
{
    match k {
        NumType::Float64 => true,
        NumType::Float32 => n.f32_exact,
        _ => match n.integer {
            None => false,
            Some(v) => {
                let (lo, hi): (i64, i64) = match k {
                    NumType::Int8 => (-128, 127),
                    NumType::Uint8 => (0, 255),
                    NumType::Int16 => (-32768, 32767),
                    NumType::Uint16 => (0, 65535),
                    NumType::Int32 => (-2147483648, 2147483647),
                    _ => (0, 4294967295),
                };
                lo <= v && v <= hi
            },
        },
    }
}

/// Picks the smallest kind able to represent `n` exactly.
pub fn classify(n: NumberLit) -> (r: NumType)
    ensures
        r == classify_spec(n),
{
    if fits(NumType::Uint8, n) {
        NumType::Uint8
    } else if fits(NumType::Int8, n) {
        NumType::Int8
    } else if fits(NumType::Uint16, n) {
        NumType::Uint16
    } else if fits(NumType::Int16, n) {
        NumType::Int16
    } else if fits(NumType::Uint32, n) {
        NumType::Uint32
    } else if fits(NumType::Int32, n) {
        NumType::Int32
    } else if fits(NumType::Float32, n) {
        NumType::Float32
    } else {
        NumType::Float64
    }
}

pub fn widens(a: NumType, b: NumType) -> (r: bool)
    ensures
        r == widens_to(a, b),
{
    if a == b {
        return true;
    }
    match (a, b) {
        (_, NumType::Float64) => true,
        (NumType::Int8, NumType::Int16) | (NumType::Int8, NumType::Int32) => true,
        (NumType::Int16, NumType::Int32) => true,
        (NumType::Uint8, NumType::Uint16) | (NumType::Uint8, NumType::Uint32) => true,
        (NumType::Uint8, NumType::Int16) | (NumType::Uint8, NumType::Int32) => true,
        (NumType::Uint16, NumType::Uint32) => true,
        _ => false,
    }
}

/// The least upper bound of two kinds in the widening order.
pub fn join(a: NumType, b: NumType) -> (r: NumType)
    ensures
        r == join_spec(a, b),
{
    if widens(a, b) {
        b
    } else if widens(b, a) {
        a
    } else if (a == NumType::Int8 && b == NumType::Uint8) || (a == NumType::Uint8 && b
        == NumType::Int8) {
        NumType::Int16
    } else {
        NumType::Float64
    }
}

/// The kind that the number `n` adds to its position, the default kind
/// `default` when that holds it.
pub fn classify_with_default(n: NumberLit, default: NumType) -> (r: NumType)
    ensures
        r == classify_default(n, default),
{
    if fits(default, n) {
        default
    } else {
        classify(n)
    }
}

/// `join` is the least upper bound of its arguments in the widening order.
pub proof fn lemma_join_is_least_upper_bound(a: NumType, b: NumType, c: NumType)
    ensures
        widens_to(a, join_spec(a, b)),
        widens_to(b, join_spec(a, b)),
        widens_to(a, c) && widens_to(b, c) ==> widens_to(join_spec(a, b), c),
{
}

/// `join` is commutative, associative and idempotent.
pub proof fn lemma_join_laws(a: NumType, b: NumType, c: NumType)
    ensures
        join_spec(a, b) == join_spec(b, a),
        join_spec(join_spec(a, b), c) == join_spec(a, join_spec(b, c)),
        join_spec(a, a) == a,
{
}

/// A kind that holds a literal passes it on to every wider kind.
pub proof fn lemma_fits_widens(a: NumType, b: NumType, n: NumberLit)
    requires
        fits_spec(a, n),
        widens_to(a, b),
    ensures
        fits_spec(b, n),
{
}

/// The classified kind holds its literal.
pub proof fn lemma_classify_fits(n: NumberLit)
    ensures
        fits_spec(classify_spec(n), n),
{
}

/// The kind of a position after the numbers `lits`, in order: the join of
/// the kinds they add.
pub open spec fn fold_numbers(lits: Seq<NumberLit>, default: NumType) -> NumType
    decreases lits.len(),
{
    if lits.len() <= 1 {
        classify_default(lits[0], default)
    } else {
        join_spec(fold_numbers(lits.drop_last(), default), classify_default(lits.last(), default))
    }
}

/// The kind a number adds to its position holds it.
pub proof fn lemma_classify_default_fits(n: NumberLit, default: NumType)
    ensures
        fits_spec(classify_default(n, default), n),
{
}

pub proof fn lemma_widens_transitive(a: NumType, b: NumType, c: NumType)
    requires
        widens_to(a, b),
        widens_to(b, c),
    ensures
        widens_to(a, c),
{
}
/// The kind of a position holds every number folded in there, whatever
/// the order.
pub proof fn law_number_kind_holds_all(lits: Seq<NumberLit>, default: NumType)
    requires
        lits.len() > 0,
    ensures
        forall|i: int| 0 <= i < lits.len() ==> fits_spec(fold_numbers(lits, default), #[trigger] lits[i]),
    decreases lits.len(),
{
    if lits.len() > 1 {
        let init = lits.drop_last();
        law_number_kind_holds_all(init, default);
        let k = fold_numbers(init, default);
        let c = classify_default(lits.last(), default);
        lemma_join_is_least_upper_bound(k, c, k);
        assert forall|i: int| 0 <= i < lits.len() implies fits_spec(fold_numbers(lits, default), #[trigger] lits[i]) by {
            if i < lits.len() - 1 {
                assert(lits[i] == init[i]);
                lemma_fits_widens(k, join_spec(k, c), lits[i]);
            } else {
                lemma_fits_widens(c, join_spec(k, c), lits[i]);
            }
        }
    }
}

/// The kind that a name selects, as JSON Type Definition spells it.
pub open spec fn num_type_named(name: Seq<char>) -> Option<NumType> {
    if name == "int8"@ {
        Some(NumType::Int8)
    } else if name == "uint8"@ {
        Some(NumType::Uint8)
    } else if name == "int16"@ {
        Some(NumType::Int16)
    } else if name == "uint16"@ {
        Some(NumType::Uint16)
    } else if name == "int32"@ {
        Some(NumType::Int32)
    } else if name == "uint32"@ {
        Some(NumType::Uint32)
    } else if name == "float32"@ {
        Some(NumType::Float32)
    } else if name == "float64"@ {
        Some(NumType::Float64)
    } else {
        None
    }
}

/// The kind named `name`, if it names one.
pub fn parse_num_type(name: &str) -> (r: Option<NumType>)
    ensures
        r == num_type_named(name@),
{
    let n = String::from_str(name);
    if n == String::from_str("int8") {
        Some(NumType::Int8)
    } else if n == String::from_str("uint8") {
        Some(NumType::Uint8)
    } else if n == String::from_str("int16") {
        Some(NumType::Int16)
    } else if n == String::from_str("uint16") {
        Some(NumType::Uint16)
    } else if n == String::from_str("int32") {
        Some(NumType::Int32)
    } else if n == String::from_str("uint32") {
        Some(NumType::Uint32)
    } else if n == String::from_str("float32") {
        Some(NumType::Float32)
    } else if n == String::from_str("float64") {
        Some(NumType::Float64)
    } else {
        None
    }
}

} // verus!
