//! JSON values and paths into them.
pub mod lexer;
pub mod parser;

pub use lexer::Lexer;
pub use parser::Parser;

use lexer::{all_ok, lemma_tokens_unique, push_char, tiles, Token};
use parser::{lemma_reads_same, lemma_significant_equiv, significant, value_at};
use vstd::prelude::*;
use vstd::std_specs::iter::IteratorSpec;
use vstd::string::StringExecFns;

verus! {

broadcast use vstd::std_specs::vec::group_vec_axioms, vstd::string::group_string_axioms;

/// One step of a path: an object member name or an array index.
#[derive(Debug, Clone, PartialEq)]
pub enum KeyPart {
    Identifier(String),
    Index(usize),
}

/// The mathematical value of a [`KeyPart`].
pub enum Segment {
    Name(Seq<char>),
    Index(usize),
}

impl View for KeyPart {
    type V = Segment;

    open spec fn view(&self) -> Segment {
        match self {
            KeyPart::Identifier(s) => Segment::Name(s@),
            KeyPart::Index(i) => Segment::Index(*i),
        }
    }
}

impl KeyPart {
    /// A copy of this segment.
    pub fn duplicate(&self) -> (r: KeyPart)
        ensures
            r@ == self@,
    {
        match self {
            KeyPart::Identifier(s) => KeyPart::Identifier(s.clone()),
            KeyPart::Index(i) => KeyPart::Index(*i),
        }
    }
}

/// The segments of a sequence of key parts.
pub open spec fn segments(parts: Seq<KeyPart>) -> Seq<Segment> {
    parts.map_values(|p: KeyPart| p@)
}

/// A path into a JSON value, with a cursor (`depth`) used while walking it.
#[derive(Clone, Debug, PartialEq)]
pub struct Key {
    depth: usize,
    parts: Vec<KeyPart>,
}

impl Key {
    /// The segments of the path.
    pub closed spec fn path(&self) -> Seq<Segment> {
        segments(self.parts@)
    }

    /// The position of the cursor.
    pub closed spec fn cursor(&self) -> nat {
        self.depth as nat
    }

    /// The empty path, denoting the root.
    pub fn default() -> (r: Key)
        ensures
            r.path() == Seq::<Segment>::empty(),
            r.cursor() == 0,
    {
        let r = Key { depth: 0, parts: Vec::new() };
        assert(r.path() =~= Seq::<Segment>::empty());
        r
    }

    pub fn new(parts: Vec<KeyPart>) -> (r: Key)
        ensures
            r.path() == segments(parts@),
            r.cursor() == 0,
    {
        Key { depth: 0, parts }
    }

    /// Number of segments.
    pub fn len(&self) -> (r: usize)
        ensures
            r == self.path().len(),
    {
        self.parts.len()
    }

    /// Whether the cursor stands on the last segment.
    pub fn is_empty(&self) -> (r: bool)
        ensures
            r == (self.path().len() > 0 && self.cursor() == self.path().len() - 1),
    {
        let len = self.parts.len();
        if len == 0 {
            false
        } else {
            len - 1 == self.depth
        }
    }

    /// The segment under the cursor.
    pub fn first_part(&self) -> (r: &KeyPart)
        requires
            self.cursor() < self.path().len(),
        ensures
            r@ == self.path()[self.cursor() as int],
    {
        &self.parts[self.depth]
    }

    /// Moves the cursor one segment on, unless it stands on the last one.
    pub fn descend(&mut self) -> (r: bool)
        requires
            old(self).cursor() < old(self).path().len(),
        ensures
            final(self).path() == old(self).path(),
            r == (old(self).cursor() + 1 < old(self).path().len()),
            final(self).cursor() == if r { old(self).cursor() + 1 } else { old(self).cursor() },
    {
        let len = self.parts.len();
        assert(self.path().len() == len);
        if !self.is_empty() {
            self.depth = self.depth + 1;
            true
        } else {
            false
        }
    }

    /// Moves the cursor one segment back when it stands on the last segment.
    pub fn ascend(&mut self) -> (r: bool)
        ensures
            final(self).path() == old(self).path(),
            r == (old(self).path().len() > 0 && old(self).cursor() == old(self).path().len() - 1
                && old(self).cursor() > 0),
            final(self).cursor() == if r { old(self).cursor() - 1 } else { old(self).cursor() as int },
    {
        if self.is_empty() && self.depth > 0 {
            self.depth = self.depth - 1;
            true
        } else {
            false
        }
    }

    /// A copy of the path with the cursor at the start.
    pub fn copy_of(&self) -> (r: Key)
        ensures
            r.path() == self.path(),
            r.cursor() == 0,
    {
        let mut parts: Vec<KeyPart> = Vec::new();
        let mut i: usize = 0;
        while i < self.parts.len()
            invariant
                i <= self.parts.len(),
                parts@.len() == i,
                forall|j: int| 0 <= j < i ==> (#[trigger] parts@[j])@ == self.parts@[j]@,
            decreases self.parts.len() - i,
        {
            let p = self.parts[i].duplicate();
            parts.push(p);
            i = i + 1;
        }
        assert(segments(parts@) =~= segments(self.parts@));
        Key { depth: 0, parts }
    }

    /// The path with a member name appended.
    pub fn push_str(self, string: &str) -> (r: Key)
        ensures
            r.path() == self.path().push(Segment::Name(string@)),
            r.cursor() == self.cursor(),
    {
        let mut me = self;
        let s = String::from_str(string);
        me.parts.push(KeyPart::Identifier(s));
        assert(segments(me.parts@) =~= segments(self.parts@).push(Segment::Name(string@)));
        me
    }

    /// The path with an array index appended.
    pub fn push_idx(self, index: usize) -> (r: Key)
        ensures
            r.path() == self.path().push(Segment::Index(index)),
            r.cursor() == self.cursor(),
    {
        let mut me = self;
        me.parts.push(KeyPart::Index(index));
        assert(segments(me.parts@) =~= segments(self.parts@).push(Segment::Index(index)));
        me
    }

    /// Removes the last segment, keeping the cursor within the path.
    pub fn pop(&mut self) -> (r: Option<KeyPart>)
        ensures
            old(self).path().len() == 0 ==> r is None && final(self).path() == old(self).path(),
            old(self).path().len() > 0 ==> r is Some && r->0@ == old(self).path().last()
                && final(self).path() == old(self).path().drop_last(),
            final(self).cursor() == if old(self).path().len() > 0 && old(self).cursor()
                == old(self).path().len() - 1 && old(self).cursor() != 0 {
                old(self).cursor() - 1
            } else {
                old(self).cursor() as int
            },
    {
        if self.is_empty() && self.depth != 0 {
            self.depth = self.depth - 1;
        }
        let r = self.parts.pop();
        proof {
            if old(self).parts@.len() > 0 {
                assert(segments(self.parts@) =~= segments(old(self).parts@).drop_last());
            }
        }
        r
    }

    /// Whether two keys denote the same path (the cursor is not compared).
    pub fn same_path(&self, other: &Key) -> (r: bool)
        ensures
            r == (self.path() == other.path()),
    {
        if self.parts.len() != other.parts.len() {
            proof {
                assert(self.path().len() != other.path().len());
            }
            return false;
        }
        let mut i: usize = 0;
        while i < self.parts.len()
            invariant
                i <= self.parts.len(),
                self.parts.len() == other.parts.len(),
                forall|j: int| 0 <= j < i ==> self.path()[j] == other.path()[j],
            decreases self.parts.len() - i,
        {
            assert(self.path()[i as int] == self.parts@[i as int]@);
            assert(other.path()[i as int] == other.parts@[i as int]@);
            let same = match &self.parts[i] {
                KeyPart::Identifier(a) => match &other.parts[i] {
                    KeyPart::Identifier(b) => a.eq(b),
                    KeyPart::Index(_) => false,
                },
                KeyPart::Index(a) => match &other.parts[i] {
                    KeyPart::Identifier(_) => false,
                    KeyPart::Index(b) => *a == *b,
                },
            };
            if !same {
                proof {
                    assert(self.path()[i as int] != other.path()[i as int]);
                }
                return false;
            }
            i = i + 1;
        }
        assert(self.path() =~= other.path());
        true
    }
}

/// A JSON value. Object members are kept in order; the keys of an object that
/// the parser builds are unique.
#[derive(Debug)]
pub enum Json {
    Object(Vec<(String, Json)>),
    Array(Vec<Json>),
    Number { integer: i64, fraction: (u32, u64), exponent: i64 },
    String(String),
    Boolean(bool),
    Null,
}

/// Whether two values are the same value, member for member in the same order.
pub open spec fn same(a: Json, b: Json) -> bool
    decreases a,
{
    match a {
        Json::Object(x) => match b {
            Json::Object(y) => x@.len() == y@.len() && forall|i: int|
                #![trigger x@[i]]
                0 <= i < x@.len() ==> x@[i].0@ == y@[i].0@ && same(x@[i].1, y@[i].1),
            _ => false,
        },
        Json::Array(x) => match b {
            Json::Array(y) => x@.len() == y@.len() && forall|i: int|
                #![trigger x@[i]]
                0 <= i < x@.len() ==> same(x@[i], y@[i]),
            _ => false,
        },
        Json::String(s) => match b {
            Json::String(t) => s@ == t@,
            _ => false,
        },
        _ => a == b,
    }
}

impl Clone for Json {
    fn clone(&self) -> (r: Json)
        ensures
            same(r, *self),
    {
        self.duplicate()
    }
}

impl Json {
    /// A copy of this value.
    pub fn duplicate(&self) -> (r: Json)
        ensures
            same(r, *self),
        decreases self,
    {
        match self {
            Json::Object(members) => {
                let mut out: Vec<(String, Json)> = Vec::new();
                let mut i: usize = 0;
                while i < members.len()
                    invariant
                        i <= members.len(),
                        out@.len() == i,
                        *self == Json::Object(*members),
                        forall|j: int| #![trigger out@[j]] 0 <= j < i ==> out@[j].0@ == members@[j].0@
                            && same(out@[j].1, members@[j].1),
                    decreases members.len() - i,
                {
                    proof {
                        assert(decreases_to!(members => members@));
                        assert(decreases_to!(members@ => members@[i as int]));
                        assert(decreases_to!(members@[i as int] => members@[i as int].1));
                        assert(decreases_to!(*self => self->Object_0));
                    }
                    let v = members[i].1.duplicate();
                    let k = members[i].0.clone();
                    out.push((k, v));
                    i = i + 1;
                }
                let r = Json::Object(out);
                assert(same(r, *self));
                r
            },
            Json::Array(items) => {
                let mut out: Vec<Json> = Vec::new();
                let mut i: usize = 0;
                while i < items.len()
                    invariant
                        i <= items.len(),
                        out@.len() == i,
                        *self == Json::Array(*items),
                        forall|j: int| #![trigger out@[j]] 0 <= j < i ==> same(out@[j], items@[j]),
                    decreases items.len() - i,
                {
                    proof {
                        assert(decreases_to!(items => items@));
                        assert(decreases_to!(items@ => items@[i as int]));
                        assert(decreases_to!(*self => self->Array_0));
                    }
                    out.push(items[i].duplicate());
                    i = i + 1;
                }
                let r = Json::Array(out);
                assert(same(r, *self));
                r
            },
            Json::Number { integer, fraction, exponent } => Json::Number {
                integer: *integer,
                fraction: *fraction,
                exponent: *exponent,
            },
            Json::String(s) => Json::String(s.clone()),
            Json::Boolean(b) => Json::Boolean(*b),
            Json::Null => Json::Null,
        }
    }
}

/// `j` is the position of the first member of `m` named `k`.
pub open spec fn first_member(m: Seq<(String, Json)>, k: Seq<char>, j: int) -> bool {
    &&& 0 <= j < m.len()
    &&& m[j].0@ == k
    &&& forall|l: int| #![trigger m[l]] 0 <= l < j ==> m[l].0@ != k
}

/// The value of the first member of `m` named `k`.
pub open spec fn member(m: Seq<(String, Json)>, k: Seq<char>) -> Option<Json> {
    if exists|j: int| first_member(m, k, j) {
        Some(m[choose|j: int| first_member(m, k, j)].1)
    } else {
        None
    }
}

/// Structural equality: objects are equal when they have the same member names
/// with equal values, in any order (each name of either occurs in the other);
/// arrays are equal element by element.
pub open spec fn json_eq(a: Json, b: Json) -> bool
    decreases a,
{
    match a {
        Json::Object(x) => match b {
            Json::Object(y) => x@.len() == y@.len() && (forall|i: int|
                #![trigger x@[i]]
                0 <= i < x@.len() ==> match member(y@, x@[i].0@) {
                    Some(v) => json_eq(x@[i].1, v),
                    None => false,
                }) && forall|i: int| #![trigger y@[i]] 0 <= i < y@.len() ==> member(x@, y@[i].0@) is Some,
            _ => false,
        },
        Json::Array(x) => match b {
            Json::Array(y) => x@.len() == y@.len() && forall|i: int|
                #![trigger x@[i]]
                0 <= i < x@.len() ==> json_eq(x@[i], y@[i]),
            _ => false,
        },
        Json::String(s) => match b {
            Json::String(t) => s@ == t@,
            _ => false,
        },
        _ => a == b,
    }
}

/// There is at most one first member of a name.
pub proof fn lemma_first_member_unique(m: Seq<(String, Json)>, k: Seq<char>, i: int, j: int)
    requires
        first_member(m, k, i),
        first_member(m, k, j),
    ensures
        i == j,
{
    if i < j {
        assert(m[i].0@ != k);
    } else if j < i {
        assert(m[j].0@ != k);
    }
}

/// Finds the first member of `m` named `k`.
pub fn find_member(m: &Vec<(String, Json)>, k: &str) -> (r: Option<usize>)
    ensures
        match r {
            Some(j) => first_member(m@, k@, j as int) && member(m@, k@) == Some(m@[j as int].1),
            None => member(m@, k@) is None && forall|l: int| #![trigger m@[l]] 0 <= l < m@.len()
                ==> m@[l].0@ != k@,
        },
{
    let mut j: usize = 0;
    while j < m.len()
        invariant
            j <= m.len(),
            forall|l: int| #![trigger m@[l]] 0 <= l < j ==> m@[l].0@ != k@,
        decreases m.len() - j,
    {
        if str_eq(m[j].0.as_str(), k) {
            proof {
                assert(first_member(m@, k@, j as int));
                assert forall|l: int| first_member(m@, k@, l) implies l == j by {
                    if l < j {
                        assert(m@[l].0@ != k@);
                    } else if l > j {
                        assert(m@[j as int].0@ != k@);
                    }
                }
            }
            return Some(j);
        }
        j = j + 1;
    }
    None
}

/// Character-wise equality of two strings.
pub fn str_eq(a: &str, b: &str) -> (r: bool)
    ensures
        r == (a@ == b@),
{
    let mut x = a.chars();
    let mut y = b.chars();
    let ghost mut seen: Seq<char> = Seq::empty();
    loop
        invariant
            a@ == seen + x.remaining(),
            b@ == seen + y.remaining(),
            x.decrease() is Some,
            y.decrease() is Some,
        decreases x.decrease()->0,
    {
        let ghost xs = x.remaining();
        let ghost ys = y.remaining();
        match x.next() {
            Some(c) => match y.next() {
                Some(d) => {
                    if c != d {
                        assert(a@[seen.len() as int] == c);
                        assert(b@[seen.len() as int] == d);
                        return false;
                    }
                    proof {
                        assert(xs == seq![c] + x.remaining());
                        assert(ys == seq![d] + y.remaining());
                        seen = seen.push(c);
                        assert(a@ =~= seen + x.remaining());
                        assert(b@ =~= seen + y.remaining());
                    }
                },
                None => {
                    assert(a@.len() > b@.len());
                    return false;
                },
            },
            None => {
                match y.next() {
                    Some(_) => {
                        assert(b@.len() > a@.len());
                        return false;
                    },
                    None => {
                        assert(a@ =~= b@);
                        return true;
                    },
                }
            },
        }
    }
}

impl Json {
    /// Structural equality, see [`json_eq`].
    pub fn equals(&self, other: &Json) -> (r: bool)
        ensures
            r == json_eq(*self, *other),
        decreases self,
    {
        match self {
            Json::Object(x) => {
                let y = match other {
                    Json::Object(y) => y,
                    _ => return false,
                };
                if x.len() != y.len() {
                    return false;
                }
                let mut i: usize = 0;
                while i < x.len()
                    invariant
                        *self == Json::Object(*x),
                        *other == Json::Object(*y),
                        x@.len() == y@.len(),
                        i <= x.len(),
                        forall|l: int| #![trigger x@[l]] 0 <= l < i ==> match member(y@, x@[l].0@) {
                            Some(v) => json_eq(x@[l].1, v),
                            None => false,
                        },
                    decreases x.len() - i,
                {
                    let found = find_member(y, x[i].0.as_str());
                    match found {
                        None => return false,
                        Some(j) => {
                            proof {
                                assert(decreases_to!(*self => self->Object_0));
                                assert(decreases_to!(x => x@));
                                assert(decreases_to!(x@ => x@[i as int]));
                                assert(decreases_to!(x@[i as int] => x@[i as int].1));
                            }
                            if !x[i].1.equals(&y[j].1) {
                                return false;
                            }
                        },
                    }
                    i = i + 1;
                }
                let mut k: usize = 0;
                while k < y.len()
                    invariant
                        k <= y@.len(),
                        *self == Json::Object(*x),
                        *other == Json::Object(*y),
                        x@.len() == y@.len(),
                        forall|l: int| #![trigger x@[l]] 0 <= l < x@.len() ==> match member(y@, x@[l].0@) {
                            Some(v) => json_eq(x@[l].1, v),
                            None => false,
                        },
                        forall|l: int| #![trigger y@[l]] 0 <= l < k ==> member(x@, y@[l].0@) is Some,
                    decreases y@.len() - k,
                {
                    if find_member(x, y[k].0.as_str()).is_none() {
                        return false;
                    }
                    k = k + 1;
                }
                true
            },
            Json::Array(x) => {
                let y = match other {
                    Json::Array(y) => y,
                    _ => return false,
                };
                if x.len() != y.len() {
                    return false;
                }
                let mut i: usize = 0;
                while i < x.len()
                    invariant
                        *self == Json::Array(*x),
                        *other == Json::Array(*y),
                        x@.len() == y@.len(),
                        i <= x.len(),
                        forall|l: int| #![trigger x@[l]] 0 <= l < i ==> json_eq(x@[l], y@[l]),
                    decreases x.len() - i,
                {
                    proof {
                        assert(decreases_to!(*self => self->Array_0));
                        assert(decreases_to!(x => x@));
                        assert(decreases_to!(x@ => x@[i as int]));
                    }
                    if !x[i].equals(&y[i]) {
                        return false;
                    }
                    i = i + 1;
                }
                true
            },
            Json::Number { integer, fraction, exponent } => match other {
                Json::Number { integer: i2, fraction: f2, exponent: e2 } => *integer == *i2
                    && fraction.0 == f2.0 && fraction.1 == f2.1 && *exponent == *e2,
                _ => false,
            },
            Json::String(s) => match other {
                Json::String(t) => s.eq(t),
                _ => false,
            },
            Json::Boolean(b) => match other {
                Json::Boolean(c) => *b == *c,
                _ => false,
            },
            Json::Null => match other {
                Json::Null => true,
                _ => false,
            },
        }
    }
}

impl PartialEq for Json {
    fn eq(&self, other: &Json) -> (r: bool) {
        self.equals(other)
    }
}

impl vstd::std_specs::cmp::PartialEqSpecImpl for Json {
    open spec fn obeys_eq_spec() -> bool {
        true
    }

    open spec fn eq_spec(&self, other: &Json) -> bool {
        json_eq(*self, *other)
    }
}

/// The keys of every object in `j` are unique.
pub open spec fn wf(j: Json) -> bool
    decreases j,
{
    match j {
        Json::Object(m) => (forall|a: int, b: int| #![trigger m@[a], m@[b]]
            0 <= a < b < m@.len() ==> m@[a].0@ != m@[b].0@) && forall|i: int|
            #![trigger m@[i]]
            0 <= i < m@.len() ==> wf(m@[i].1),
        Json::Array(v) => forall|i: int| #![trigger v@[i]] 0 <= i < v@.len() ==> wf(v@[i]),
        _ => true,
    }
}

/// `src` reads as the value `j`: split into the tokens that lexing gives, its
/// tokens other than whitespace write `j`.
pub open spec fn reads_as(src: Seq<char>, j: Json) -> bool {
    exists|toks: Seq<Token>| #[trigger] tiles(src, Some(src), toks, 0, src.len() as int) && all_ok(src, toks)
        && value_at(significant(toks), 0, j, significant(toks).len() as int)
}

/// The child of `j` that one path segment names.
pub open spec fn child(j: Json, s: Segment) -> Option<Json> {
    match j {
        Json::Object(m) => match s {
            Segment::Name(k) => member(m@, k),
            Segment::Index(_) => None,
        },
        Json::Array(v) => match s {
            Segment::Index(i) => if i < v@.len() {
                Some(v@[i as int])
            } else {
                None
            },
            Segment::Name(_) => None,
        },
        _ => None,
    }
}

/// The value that `path` names below `j`, starting at segment `from`.
pub open spec fn lookup(j: Json, path: Seq<Segment>, from: int) -> Option<Json>
    decreases path.len() - from,
{
    if 0 <= from < path.len() {
        let c = child(j, path[from]);
        if from + 1 < path.len() {
            match c {
                Some(next) => lookup(next, path, from + 1),
                None => None,
            }
        } else {
            c
        }
    } else {
        None
    }
}

impl Json {
    /// The value under the path of `key`, read from its cursor on. The cursor is
    /// moved along as the walk goes deeper.
    pub fn get(&self, key: &mut Key) -> (r: Option<&Json>)
        requires
            old(key).cursor() < old(key).path().len(),
        ensures
            final(key).path() == old(key).path(),
            old(key).cursor() <= final(key).cursor() < old(key).path().len(),
            match r {
                Some(v) => lookup(*self, old(key).path(), old(key).cursor() as int) == Some(*v),
                None => lookup(*self, old(key).path(), old(key).cursor() as int) is None,
            },
        decreases self,
    {
        let ghost path = key.path();
        let ghost from = key.cursor() as int;
        let object: Option<&Json> = match self {
            Json::Object(obj) => match key.first_part() {
                KeyPart::Identifier(name) => match find_member(obj, name.as_str()) {
                    Some(j) => {
                        proof {
                            assert(decreases_to!(*self => self->Object_0));
                            assert(decreases_to!(obj => obj@));
                            assert(decreases_to!(obj@ => obj@[j as int]));
                            assert(decreases_to!(obj@[j as int] => obj@[j as int].1));
                        }
                        Some(&obj[j].1)
                    },
                    None => None,
                },
                KeyPart::Index(_) => None,
            },
            Json::Array(arr) => match key.first_part() {
                KeyPart::Index(idx) => if *idx < arr.len() {
                    proof {
                        assert(decreases_to!(*self => self->Array_0));
                        assert(decreases_to!(arr => arr@));
                        assert(decreases_to!(arr@ => arr@[*idx as int]));
                    }
                    Some(&arr[*idx])
                } else {
                    None
                },
                KeyPart::Identifier(_) => None,
            },
            _ => None,
        };
        proof {
            match object {
                Some(o) => assert(child(*self, path[from]) == Some(*o)),
                None => assert(child(*self, path[from]) is None),
            }
        }
        if key.descend() {
            match object {
                Some(o) => o.get(key),
                None => None,
            }
        } else {
            object
        }
    }
}


/// The character of a decimal digit.
pub open spec fn digit(d: nat) -> char {
    if d == 0 { '0' } else if d == 1 { '1' } else if d == 2 { '2' } else if d == 3 { '3' } else if d == 4 {
        '4'
    } else if d == 5 { '5' } else if d == 6 { '6' } else if d == 7 { '7' } else if d == 8 { '8' } else { '9' }
}

fn digit_char(d: u64) -> (c: char)
    requires
        d < 10,
    ensures
        c == digit(d as nat),
{
    if d == 0 { '0' } else if d == 1 { '1' } else if d == 2 { '2' } else if d == 3 { '3' } else if d == 4 {
        '4'
    } else if d == 5 { '5' } else if d == 6 { '6' } else if d == 7 { '7' } else if d == 8 { '8' } else { '9' }
}

/// The decimal digits of `n`.
pub open spec fn nat_text(n: nat) -> Seq<char>
    decreases n,
{
    if n < 10 {
        seq![digit(n)]
    } else {
        nat_text(n / 10).push(digit(n % 10))
    }
}

/// `n` in decimal, with a `-` when negative.
pub open spec fn int_text(n: int) -> Seq<char> {
    if n < 0 {
        seq!['-'] + nat_text((-n) as nat)
    } else {
        nat_text(n as nat)
    }
}

/// `n` characters `0`.
pub open spec fn zeros(n: nat) -> Seq<char> {
    Seq::new(n, |i: int| '0')
}

/// The text of a number: the fraction is written when it has leading zeros or
/// digits (its digits only when they are not zero), the exponent when it is
/// not zero.
pub open spec fn number_text(integer: i64, fraction: (u32, u64), exponent: i64) -> Seq<char> {
    let frac = if fraction.0 == 0 && fraction.1 == 0 {
        Seq::<char>::empty()
    } else if fraction.1 == 0 {
        seq!['.'] + zeros(fraction.0 as nat)
    } else {
        seq!['.'] + zeros(fraction.0 as nat) + nat_text(fraction.1 as nat)
    };
    let exp = if exponent == 0 {
        Seq::<char>::empty()
    } else {
        seq!['e'] + int_text(exponent as int)
    };
    int_text(integer as int) + frac + exp
}

/// The JSON text of a value. Strings and member names are written between
/// quotes as they are held.
pub open spec fn text(j: Json) -> Seq<char>
    decreases j, 0nat,
{
    match j {
        Json::Object(m) => seq!['{'] + members_text(m@, 0) + seq!['}'],
        Json::Array(v) => seq!['['] + items_text(v@, 0) + seq![']'],
        Json::Number { integer, fraction, exponent } => number_text(integer, fraction, exponent),
        Json::String(s) => seq!['"'] + s@ + seq!['"'],
        Json::Boolean(b) => if b { "true"@ } else { "false"@ },
        Json::Null => "null"@,
    }
}

/// The members of `m` from `i` on, each after a comma but the first.
pub open spec fn members_text(m: Seq<(String, Json)>, i: int) -> Seq<char>
    decreases m, m.len() - i,
{
    if 0 <= i < m.len() {
        let sep = if i > 0 { seq![','] } else { Seq::<char>::empty() };
        sep + seq!['"'] + m[i].0@ + seq!['"', ':'] + text(m[i].1) + members_text(m, i + 1)
    } else {
        Seq::empty()
    }
}

/// The elements of `v` from `i` on, each after a comma but the first.
pub open spec fn items_text(v: Seq<Json>, i: int) -> Seq<char>
    decreases v, v.len() - i,
{
    if 0 <= i < v.len() {
        let sep = if i > 0 { seq![','] } else { Seq::<char>::empty() };
        sep + text(v[i]) + items_text(v, i + 1)
    } else {
        Seq::empty()
    }
}

/// Appends the decimal digits of `n`.
fn push_nat(buffer: &mut String, n: u64)
    ensures
        final(buffer)@ == old(buffer)@ + nat_text(n as nat),
    decreases n,
{
    if n < 10 {
        push_char(buffer, digit_char(n));
        assert(final(buffer)@ =~= old(buffer)@ + nat_text(n as nat));
    } else {
        push_nat(buffer, n / 10);
        push_char(buffer, digit_char(n % 10));
        assert(final(buffer)@ =~= old(buffer)@ + nat_text(n as nat));
    }
}

/// Appends `n` in decimal.
fn push_int(buffer: &mut String, n: i64)
    ensures
        final(buffer)@ == old(buffer)@ + int_text(n as int),
{
    if n < 0 {
        push_char(buffer, '-');
        let magnitude: u64 = ((-(n + 1)) as u64) + 1;
        push_nat(buffer, magnitude);
        assert(final(buffer)@ =~= old(buffer)@ + int_text(n as int));
    } else {
        push_nat(buffer, n as u64);
    }
}

impl Json {
    /// The JSON text of the value, see [`text`].
    pub fn to_string(&self) -> (r: String)
        ensures
            r@ == text(*self),
    {
        let mut string = String::new();
        self.to_string_rec(&mut string);
        assert(string@ =~= text(*self));
        string
    }

    /// Appends the JSON text of the value.
    fn to_string_rec(&self, buffer: &mut String)
        ensures
            final(buffer)@ == old(buffer)@ + text(*self),
        decreases self,
    {
        match self {
            Json::Object(map) => {
                push_char(buffer, '{');
                let ghost start = buffer@;
                let mut i: usize = 0;
                while i < map.len()
                    invariant
                        i <= map@.len(),
                        *self == Json::Object(*map),
                        start + members_text(map@, 0) == buffer@ + members_text(map@, i as int),
                    decreases map@.len() - i,
                {
                    let ghost before = buffer@;
                    if i > 0 {
                        push_char(buffer, ',');
                    }
                    push_char(buffer, '"');
                    buffer.append(map[i].0.as_str());
                    push_char(buffer, '"');
                    push_char(buffer, ':');
                    proof {
                        assert(decreases_to!(*self => self->Object_0));
                        assert(decreases_to!(map => map@));
                        assert(decreases_to!(map@ => map@[i as int]));
                        assert(decreases_to!(map@[i as int] => map@[i as int].1));
                    }
                    map[i].1.to_string_rec(buffer);
                    proof {
                        let sep = if i > 0 { seq![','] } else { Seq::<char>::empty() };
                        assert(buffer@ =~= before + (sep + seq!['"'] + map@[i as int].0@ + seq!['"', ':']
                            + text(map@[i as int].1)));
                    }
                    i = i + 1;
                }
                push_char(buffer, '}');
                assert(final(buffer)@ =~= old(buffer)@ + text(*self));
            },
            Json::Array(array) => {
                push_char(buffer, '[');
                let ghost start = buffer@;
                let mut i: usize = 0;
                while i < array.len()
                    invariant
                        i <= array@.len(),
                        *self == Json::Array(*array),
                        start + items_text(array@, 0) == buffer@ + items_text(array@, i as int),
                    decreases array@.len() - i,
                {
                    let ghost before = buffer@;
                    if i > 0 {
                        push_char(buffer, ',');
                    }
                    proof {
                        assert(decreases_to!(*self => self->Array_0));
                        assert(decreases_to!(array => array@));
                        assert(decreases_to!(array@ => array@[i as int]));
                    }
                    array[i].to_string_rec(buffer);
                    proof {
                        let sep = if i > 0 { seq![','] } else { Seq::<char>::empty() };
                        assert(buffer@ =~= before + (sep + text(array@[i as int])));
                    }
                    i = i + 1;
                }
                push_char(buffer, ']');
                assert(final(buffer)@ =~= old(buffer)@ + text(*self));
            },
            Json::Number { integer, fraction, exponent } => {
                push_int(buffer, *integer);
                if fraction.0 != 0 || fraction.1 != 0 {
                    push_char(buffer, '.');
                    let mut k: u32 = 0;
                    let ghost mid = buffer@;
                    while k < fraction.0
                        invariant
                            k <= fraction.0,
                            buffer@ == mid + zeros(k as nat),
                        decreases fraction.0 - k,
                    {
                        push_char(buffer, '0');
                        k = k + 1;
                        assert(buffer@ =~= mid + zeros(k as nat));
                    }
                    if fraction.1 != 0 {
                        push_nat(buffer, fraction.1);
                    }
                }
                if *exponent != 0 {
                    push_char(buffer, 'e');
                    push_int(buffer, *exponent);
                }
                assert(final(buffer)@ =~= old(buffer)@ + text(*self));
            },
            Json::String(string) => {
                push_char(buffer, '"');
                buffer.append(string.as_str());
                push_char(buffer, '"');
                assert(final(buffer)@ =~= old(buffer)@ + text(*self));
            },
            Json::Boolean(b) => {
                if *b {
                    buffer.append("true");
                } else {
                    buffer.append("false");
                }
            },
            Json::Null => buffer.append("null"),
        }
    }

    /// The value that `input` writes, see [`reads_as`], or `None` when it
    /// writes none.
    pub fn from_string(input: &str) -> (r: Option<Json>)
        ensures
            r matches Some(j) ==> wf(j) && reads_as(input@, j),
            (exists|j: Json| reads_as(input@, j)) ==> r is Some,
    {
        let tokens = match Lexer::lex_str(input) {
            Ok(tokens) => tokens,
            Err(_) => {
                proof {
                    if exists|j: Json| reads_as(input@, j) {
                        let j = choose|j: Json| reads_as(input@, j);
                        let toks = choose|toks: Seq<Token>| #[trigger] tiles(input@, Some(input@), toks, 0, input@.len() as int)
                            && all_ok(input@, toks) && value_at(significant(toks), 0, j, significant(toks).len() as int);
                        assert(tiles(input@, Some(input@), toks, 0, input@.len() as int) && all_ok(input@, toks));
                    }
                }
                return None;
            },
        };
        let ghost src = input@;
        proof {
            if exists|j: Json| reads_as(src, j) {
                let j = choose|j: Json| reads_as(src, j);
                let toks = choose|toks: Seq<Token>| #[trigger] tiles(src, Some(src), toks, 0, src.len() as int)
                    && all_ok(src, toks) && value_at(significant(toks), 0, j, significant(toks).len() as int);
                lemma_tokens_unique(src, toks, Some(src), tokens@, Some(src));
                lemma_significant_equiv(toks, tokens@);
                lemma_reads_same(significant(toks), significant(tokens@), j);
            }
        }
        let slice = tokens.as_slice();
        assert(slice@ == tokens@);
        match Parser::parse_tokens(slice) {
            Ok(value) => value,
            Err(_) => None,
        }
    }
}

} // verus!
