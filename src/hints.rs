//! Hint configuration: sets of document paths that ask for an enum, a
//! free-form map or a tagged union at those exact positions, and the parsing
//! of JSON Pointers (RFC 6901) into such paths.
use crate::number::{num_type_named, parse_num_type, NumType};
use vstd::prelude::*;
use vstd::string::*;

verus! {

/// A path as property names, one sequence of characters each.
pub open spec fn path_view(p: Seq<String>) -> Seq<Seq<char>> {
    p.map_values(|s: String| s@)
}

/// A set of paths, each a sequence of property names from the root.
pub struct HintSet {
    pub paths: Vec<Vec<String>>,
}

/// The three hint sets and the default numeric kind of one inference run.
///
/// A discriminator hint names the tag property itself: the path `["kind"]`
/// makes the root a tagged union on the property `kind`. At such a position
/// an object without a string tag makes the position accept anything.
///
/// Array elements share the path of their array. The member values of a
/// free-form map (a position that the values hint names) share the map's
/// path extended by the name `-`, so `["counts", "-"]` names them; a real
/// property named `-` shares that path too.
pub struct Hints {
    pub default_num_type: NumType,
    pub enums: HintSet,
    pub values: HintSet,
    pub discriminator: HintSet,
}

impl HintSet {
    pub open spec fn has(&self, p: Seq<Seq<char>>) -> bool {
        exists|i: int| 0 <= i < self.paths@.len() && path_view(self.paths@[i]@) == p
    }

    /// Whether hint path `i` names a property directly under position `p`.
    pub open spec fn is_tag_of(&self, i: int, p: Seq<Seq<char>>) -> bool {
        &&& 0 <= i < self.paths@.len()
        &&& path_view(self.paths@[i]@).len() == p.len() + 1
        &&& path_view(self.paths@[i]@).take(p.len() as int) == p
    }

    /// The tag property that the first matching hint path names under `p`.
    pub open spec fn tag_at(&self, p: Seq<Seq<char>>) -> Option<Seq<char>> {
        if exists|i: int| self.is_tag_of(i, p) {
            let i = choose|i: int|
                self.is_tag_of(i, p) && forall|j: int| 0 <= j < i ==> !self.is_tag_of(j, p);
            Some(path_view(self.paths@[i]@).last())
        } else {
            None
        }
    }

    pub fn new(paths: Vec<Vec<String>>) -> (r: HintSet)
        ensures
            r.paths@ == paths@,
    {
        HintSet { paths }
    }

    /// Exact membership of `path`: no prefix or wildcard matching.
    pub fn matches(&self, path: &Vec<String>) -> (r: bool)
        ensures
            r == self.has(path_view(path@)),
    {
        let mut i: usize = 0;
        while i < self.paths.len()
            invariant
                0 <= i <= self.paths@.len(),
                forall|j: int| 0 <= j < i ==> path_view(self.paths@[j]@) != path_view(path@),
            decreases self.paths@.len() - i,
        {
            if path_eq(&self.paths[i], path) {
                return true;
            }
            i = i + 1;
        }
        false
    }

    /// The tag property named by the first hint path directly under `path`.
    pub fn tag(&self, path: &Vec<String>) -> (r: Option<String>)
        ensures
            r matches Some(t) ==> self.tag_at(path_view(path@)) == Some(t@),
            r is None ==> self.tag_at(path_view(path@)) is None,
    {
        let ghost p = path_view(path@);
        let mut i: usize = 0;
        while i < self.paths.len()
            invariant
                0 <= i <= self.paths@.len(),
                p == path_view(path@),
                forall|j: int| 0 <= j < i ==> !self.is_tag_of(j, p),
            decreases self.paths@.len() - i,
        {
            let h = &self.paths[i];
            if h.len() > path.len() && h.len() - 1 == path.len() && prefix_eq(h, path) {
                proof {
                    assert(path_view(h@).take(p.len() as int) =~= p);
                    assert(self.is_tag_of(i as int, p));
                    let k = choose|k: int|
                        self.is_tag_of(k, p) && forall|j: int| 0 <= j < k ==> !self.is_tag_of(j, p);
                    assert(!(k < i) && !(i < k));
                }
                return Some(h[path.len()].clone());
            }
            proof {
                if self.is_tag_of(i as int, p) {
                    assert(forall|j: int| 0 <= j < p.len() ==> path_view(h@).take(p.len() as int)[j] == p[j]);
                }
            }
            i = i + 1;
        }
        None
    }
}

/// Whether the first `b.len()` names of `a` are those of `b`.
fn prefix_eq(a: &Vec<String>, b: &Vec<String>) -> (r: bool)
    requires
        a@.len() >= b@.len(),
    ensures
        r == (path_view(a@).take(b@.len() as int) == path_view(b@)),
{
    let mut i: usize = 0;
    while i < b.len()
        invariant
            0 <= i <= b@.len() <= a@.len(),
            forall|j: int| 0 <= j < i ==> a@[j]@ == b@[j]@,
        decreases b@.len() - i,
    {
        if a[i] != b[i] {
            assert(path_view(a@).take(b@.len() as int)[i as int] != path_view(b@)[i as int]);
            return false;
        }
        i = i + 1;
    }
    assert(path_view(a@).take(b@.len() as int) =~= path_view(b@));
    true
}

/// Whether two paths name the same positions.
pub fn path_eq(a: &Vec<String>, b: &Vec<String>) -> (r: bool)
    ensures
        r == (path_view(a@) == path_view(b@)),
{
    if a.len() != b.len() {
        assert(path_view(a@).len() != path_view(b@).len());
        return false;
    }
    let r = prefix_eq(a, b);
    assert(path_view(a@).take(b@.len() as int) =~= path_view(a@));
    r
}

impl Hints {
    pub fn new(
        default_num_type: NumType,
        enums: HintSet,
        values: HintSet,
        discriminator: HintSet,
    ) -> (r: Hints)
        ensures
            r.default_num_type == default_num_type,
            r.enums.paths@ == enums.paths@,
            r.values.paths@ == values.paths@,
            r.discriminator.paths@ == discriminator.paths@,
    {
        Hints { default_num_type, enums, values, discriminator }
    }
}

/// The pieces of `s` between slashes, in order.
pub open spec fn split_slash(s: Seq<char>) -> Seq<Seq<char>>
    decreases s.len(),
{
    if s.len() == 0 {
        seq![Seq::empty()]
    } else {
        let r = split_slash(s.drop_last());
        if s.last() == '/' {
            r.push(Seq::empty())
        } else {
            r.drop_last().push(r.last().push(s.last()))
        }
    }
}

/// A reference token with its escapes `~1` (for `/`) and `~0` (for `~`)
/// undone, left to right.
pub open spec fn unescape(t: Seq<char>) -> Seq<char>
    decreases t.len(),
{
    if t.len() == 0 {
        t
    } else if t.len() >= 2 && t[0] == '~' && t[1] == '1' {
        seq!['/'] + unescape(t.skip(2))
    } else if t.len() >= 2 && t[0] == '~' && t[1] == '0' {
        seq!['~'] + unescape(t.skip(2))
    } else {
        seq![t[0]] + unescape(t.skip(1))
    }
}

/// The path that the JSON Pointer `s` names: the root for the empty
/// pointer, else the unescaped tokens after each `/`.
pub open spec fn pointer_path(s: Seq<char>) -> Seq<Seq<char>> {
    if s.len() == 0 {
        Seq::empty()
    } else {
        split_slash(s).drop_first().map_values(|t: Seq<char>| unescape(t))
    }
}

proof fn lemma_split_nonempty(s: Seq<char>)
    ensures
        split_slash(s).len() >= 1,
    decreases s.len(),
{
    if s.len() > 0 {
        lemma_split_nonempty(s.drop_last());
    }
}

/// The pieces of `s` between slashes.
fn split_pieces(s: &str) -> (r: Vec<String>)
    ensures
        path_view(r@) == split_slash(s@),
{
    let n = s.unicode_len();
    let mut toks: Vec<String> = Vec::new();
    let mut start: usize = 0;
    let mut i: usize = 0;
    assert(s@.take(0) =~= Seq::<char>::empty());
    assert(s@.subrange(0, 0) =~= Seq::<char>::empty());
    assert(path_view(toks@).push(s@.subrange(0, 0)) =~= seq![Seq::<char>::empty()]);
    while i < n
        invariant
            n == s@.len(),
            0 <= start <= i <= n,
            split_slash(s@.take(i as int)) == path_view(toks@).push(s@.subrange(start as int, i as int)),
        decreases n - i,
    {
        let c = s.get_char(i);
        let ghost before = path_view(toks@);
        proof {
            assert(s@.take(i + 1).drop_last() =~= s@.take(i as int));
            lemma_split_nonempty(s@.take(i as int));
        }
        if c == '/' {
            let piece = String::from_str(s.substring_char(start, i));
            toks.push(piece);
            proof {
                assert(path_view(toks@) =~= before.push(s@.subrange(start as int, i as int)));
                assert(s@.subrange(i + 1, i + 1) =~= Seq::<char>::empty());
            }
            start = i + 1;
        } else {
            proof {
                let r = split_slash(s@.take(i as int));
                assert(r.drop_last() =~= before);
                assert(r.last().push(c) =~= s@.subrange(start as int, i + 1));
            }
        }
        i = i + 1;
    }
    toks.push(String::from_str(s.substring_char(start, n)));
    assert(s@.take(n as int) =~= s@);
    assert(path_view(toks@) =~= split_slash(s@));
    toks
}

/// Undoes the escapes `~1` and `~0` of one reference token.
fn unescape_token(t: &String) -> (r: String)
    ensures
        r@ == unescape(t@),
{
    let n = t.as_str().unicode_len();
    let mut out = String::new();
    let mut i: usize = 0;
    proof {
        reveal_strlit("/");
        reveal_strlit("~");
        assert(t@.skip(0) =~= t@);
        assert(out@ + unescape(t@) =~= unescape(t@));
    }
    while i < n
        invariant
            n == t@.len(),
            0 <= i <= n,
            out@ + unescape(t@.skip(i as int)) == unescape(t@),
        decreases n - i,
    {
        let ghost u = t@.skip(i as int);
        let ghost prev = out@;
        let c = t.as_str().get_char(i);
        let next = if i + 1 < n {
            t.as_str().get_char(i + 1)
        } else {
            ' '
        };
        if c == '~' && i + 1 < n && (next == '1' || next == '0') {
            if next == '1' {
                out.append("/");
            } else {
                out.append("~");
            }
            proof {
                reveal_strlit("/");
                reveal_strlit("~");
                assert(u.skip(2) =~= t@.skip(i + 2));
                assert(prev + (seq![if next == '1' { '/' } else { '~' }] + unescape(u.skip(2)))
                    =~= out@ + unescape(t@.skip(i + 2)));
            }
            i = i + 2;
        } else {
            out.append(t.as_str().substring_char(i, i + 1));
            proof {
                assert(u.skip(1) =~= t@.skip(i + 1));
                assert(t@.subrange(i as int, i + 1) =~= seq![c]);
                assert(prev + (seq![c] + unescape(u.skip(1))) =~= out@ + unescape(t@.skip(i + 1)));
            }
            i = i + 1;
        }
    }
    assert(t@.skip(n as int) =~= Seq::<char>::empty());
    assert(out@ + Seq::<char>::empty() =~= out@);
    out
}

/// Parses a JSON Pointer (RFC 6901) into the path it names.
pub fn parse_json_pointer(s: &str) -> (r: Vec<String>)
    ensures
        path_view(r@) == pointer_path(s@),
{
    let mut r: Vec<String> = Vec::new();
    if s.unicode_len() == 0 {
        assert(path_view(r@) =~= pointer_path(s@));
        return r;
    }
    let pieces = split_pieces(s);
    let ghost want = split_slash(s@).drop_first().map_values(|t: Seq<char>| unescape(t));
    let mut j: usize = 1;
    proof {
        lemma_split_nonempty(s@);
    }
    while j < pieces.len()
        invariant
            1 <= j <= pieces@.len(),
            path_view(pieces@) == split_slash(s@),
            want == split_slash(s@).drop_first().map_values(|t: Seq<char>| unescape(t)),
            path_view(r@) == want.take(j - 1),
        decreases pieces@.len() - j,
    {
        let t = unescape_token(&pieces[j]);
        proof {
            assert(path_view(pieces@)[j as int] == pieces@[j as int]@);
            assert(want[j - 1] == unescape(split_slash(s@)[j as int]));
        }
        let ghost prev = r@;
        r.push(t);
        assert(path_view(r@) =~= path_view(prev).push(t@));
        assert(want.take(j as int) =~= want.take(j - 1).push(want[j - 1]));
        j = j + 1;
    }
    assert(want.take(j - 1) =~= want);
    r
}

/// Why a hint configuration was refused.
#[derive(Clone, Copy, PartialEq, Eq, Structural, Debug)]
pub enum ConfigError {
    /// The default number type names no numeric kind.
    InvalidNumberType,
}

/// The hint set whose paths the JSON Pointers `pointers` name, in order.
pub fn hint_set_from_pointers(pointers: &Vec<String>) -> (r: HintSet)
    ensures
        r.paths@.len() == pointers@.len(),
        forall|i: int|
            0 <= i < pointers@.len() ==> path_view(#[trigger] r.paths@[i]@) == pointer_path(
                pointers@[i]@,
            ),
{
    let mut paths: Vec<Vec<String>> = Vec::new();
    let mut i: usize = 0;
    while i < pointers.len()
        invariant
            0 <= i <= pointers@.len(),
            paths@.len() == i,
            forall|j: int|
                0 <= j < i ==> path_view(#[trigger] paths@[j]@) == pointer_path(pointers@[j]@),
        decreases pointers@.len() - i,
    {
        paths.push(parse_json_pointer(pointers[i].as_str()));
        i = i + 1;
    }
    HintSet::new(paths)
}

/// Whether `h` is the hint configuration that the three lists of JSON
/// Pointers and the default kind `default` describe.
pub open spec fn configured(
    h: Hints,
    enums: Seq<String>,
    values: Seq<String>,
    discriminator: Seq<String>,
    default: NumType,
) -> bool {
    &&& h.default_num_type == default
    &&& h.enums.paths@.len() == enums.len()
    &&& h.values.paths@.len() == values.len()
    &&& h.discriminator.paths@.len() == discriminator.len()
    &&& forall|i: int|
        0 <= i < enums.len() ==> path_view(#[trigger] h.enums.paths@[i]@) == pointer_path(enums[i]@)
    &&& forall|i: int|
        0 <= i < values.len() ==> path_view(#[trigger] h.values.paths@[i]@) == pointer_path(
            values[i]@,
        )
    &&& forall|i: int|
        0 <= i < discriminator.len() ==> path_view(#[trigger] h.discriminator.paths@[i]@)
            == pointer_path(discriminator[i]@)
}

/// The hints that three lists of JSON Pointers and the name of a default
/// numeric kind describe; an error when the name selects no kind.
pub fn hints_from_config(
    enum_hints: &Vec<String>,
    values_hints: &Vec<String>,
    discriminator_hints: &Vec<String>,
    default_number_type: &str,
) -> (r: Result<Hints, ConfigError>)
    ensures
        num_type_named(default_number_type@) is None <==> r == Err::<Hints, ConfigError>(
            ConfigError::InvalidNumberType,
        ),
        r matches Ok(h) ==> num_type_named(default_number_type@) == Some(h.default_num_type)
            && configured(
            h,
            enum_hints@,
            values_hints@,
            discriminator_hints@,
            h.default_num_type,
        ),
{
    let default = match parse_num_type(default_number_type) {
        Some(d) => d,
        None => return Err(ConfigError::InvalidNumberType),
    };
    Ok(
        Hints::new(
            default,
            hint_set_from_pointers(enum_hints),
            hint_set_from_pointers(values_hints),
            hint_set_from_pointers(discriminator_hints),
        ),
    )
}

} // verus!
