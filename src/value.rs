//! The JSON documents that examples are made of.
use crate::number::NumberLit;
use vstd::prelude::*;

verus! {

/// One JSON value. An object keeps its members in document order.
#[derive(Debug, PartialEq, Eq)]
pub enum Value {
    Null,
    Bool(bool),
    Number(NumberLit),
    String(String),
    Array(Vec<Value>),
    Object(Vec<Member>),
}

/// One member of a JSON object.
#[derive(Debug, PartialEq, Eq)]
pub struct Member {
    pub key: String,
    pub value: Value,
}

/// The names of the members of `ms`, leaving out `skip`.
pub open spec fn member_keys(ms: Seq<Member>, skip: Option<Seq<char>>) -> Set<Seq<char>> {
    Set::new(|k: Seq<char>| (exists|i: int| 0 <= i < ms.len() && ms[i].key@ == k) && skip != Some(k))
}

/// Whether `i` is the first member of `ms` named `k`.
pub open spec fn is_first_member(ms: Seq<Member>, k: Seq<char>, i: int) -> bool {
    &&& 0 <= i < ms.len()
    &&& ms[i].key@ == k
    &&& forall|j: int| 0 <= j < i ==> ms[j].key@ != k
}

/// The string held by the first member of `ms` named `k`, if it is a string.
pub open spec fn string_member(ms: Seq<Member>, k: Seq<char>) -> Option<Seq<char>> {
    if exists|i: int| is_first_member(ms, k, i) {
        let i = choose|i: int| is_first_member(ms, k, i);
        match ms[i].value {
            Value::String(s) => Some(s@),
            _ => None,
        }
    } else {
        None
    }
}

/// The position of the first member of `ms` named `k`.
pub fn find_member(ms: &Vec<Member>, k: &String) -> (r: Option<usize>)
    ensures
        r matches Some(i) ==> is_first_member(ms@, k@, i as int),
        r is None ==> forall|j: int| 0 <= j < ms@.len() ==> ms@[j].key@ != k@,
{
    let mut i: usize = 0;
    while i < ms.len()
        invariant
            0 <= i <= ms@.len(),
            forall|j: int| 0 <= j < i ==> ms@[j].key@ != k@,
        decreases ms@.len() - i,
    {
        if ms[i].key == *k {
            return Some(i);
        }
        i = i + 1;
    }
    None
}

/// The string held by the first member named `k`, if it is a string.
pub fn get_string_member(ms: &Vec<Member>, k: &String) -> (r: Option<String>)
    ensures
        r matches Some(s) ==> string_member(ms@, k@) == Some(s@),
        r is None ==> string_member(ms@, k@) is None,
{
    match find_member(ms, k) {
        None => {
            assert(!exists|i: int| is_first_member(ms@, k@, i));
            None
        },
        Some(i) => {
            proof {
                let c = choose|c: int| is_first_member(ms@, k@, c);
                assert(!(c < i) && !(i < c));
            }
            match &ms[i].value {
                Value::String(s) => Some(s.clone()),
                _ => None,
            }
        },
    }
}

/// Whether `k` names a member of `ms` other than `skip`.
pub fn has_member(ms: &Vec<Member>, k: &String, skip: &Option<String>) -> (r: bool)
    ensures
        r == member_keys(ms@, match skip { Some(s) => Some(s@), None => None }).contains(k@),
{
    if let Some(s) = skip {
        if *s == *k {
            return false;
        }
    }
    match find_member(ms, k) {
        Some(i) => true,
        None => false,
    }
}

} // verus!
