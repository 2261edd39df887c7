//! Compiling a JSON value into a schema.
use crate::json::{find_member, first_member, lemma_first_member_unique, member, same, str_eq, Json, Key};
use crate::schema::uri::{Uri, UriParseError};
use crate::json::Segment;
use crate::schema::{extends, Contains, Enum, Items, JsonSchema, LogicApplier, PrefixItems, PrimitiveType, RootSchema, Type};
use vstd::prelude::*;

verus! {

/// Why a schema cannot be compiled, and where.
#[derive(Debug, Clone)]
pub struct SchemaParseError {
    pub key: Key,
    pub kind: SchemaParseErrorKind,
}

#[derive(Debug, Clone)]
pub enum SchemaParseErrorKind {
    IllegalVocabularyType,
    InvalidUri(UriParseError),
    VocabularyNotBool,
    NotObject,
    NotArray,
    ArrayEmpty,
    InvalidType,
}

/// The keywords that describe the schema rather than assert something.
pub open spec fn is_meta(k: Seq<char>) -> bool {
    k == "$vocabulary"@ || k == "$defs"@ || k == "$id"@
}

/// The keywords that compile into an assertion.
pub open spec fn is_known(k: Seq<char>) -> bool {
    k == "allOf"@ || k == "anyOf"@ || k == "oneOf"@ || k == "not"@ || k == "enum"@ || k == "type"@
        || k == "items"@ || k == "prefixItems"@ || k == "contains"@
}

/// The type that a name of `type` stands for.
pub open spec fn type_of_name(s: Seq<char>) -> Option<PrimitiveType> {
    if s == "null"@ {
        Some(PrimitiveType::Null)
    } else if s == "boolean"@ {
        Some(PrimitiveType::Boolean)
    } else if s == "object"@ {
        Some(PrimitiveType::Object)
    } else if s == "array"@ {
        Some(PrimitiveType::Array)
    } else if s == "number"@ {
        Some(PrimitiveType::Number)
    } else if s == "string"@ {
        Some(PrimitiveType::String)
    } else if s == "integer"@ {
        Some(PrimitiveType::Integer)
    } else {
        None
    }
}

/// `t` is the list of types that the value `v` of `type` names.
pub open spec fn types_named(v: Json, t: Seq<PrimitiveType>) -> bool {
    match v {
        Json::String(s) => type_of_name(s@) is Some && t == seq![type_of_name(s@)->0],
        Json::Array(a) => t.len() == a@.len() && forall|i: int| #![trigger a@[i]] 0 <= i < a@.len()
            ==> (a@[i] matches Json::String(s) && type_of_name(s@) == Some(t[i])),
        _ => false,
    }
}

/// Whether `v` is a well-formed value of `type`.
pub open spec fn types_valid(v: Json) -> bool {
    match v {
        Json::String(s) => type_of_name(s@) is Some,
        Json::Array(a) => forall|i: int| #![trigger a@[i]] 0 <= i < a@.len()
            ==> (a@[i] matches Json::String(s) && type_of_name(s@) is Some),
        _ => false,
    }
}

/// Whether `$vocabulary`, if present, maps names to booleans.
pub open spec fn vocabulary_ok(m: Seq<(String, Json)>) -> bool {
    forall|i: int| #[trigger] first_member(m, "$vocabulary"@, i) ==> match m[i].1 {
        Json::Object(vm) => forall|j: int| #![trigger vm@[j]] 0 <= j < vm@.len() ==> vm@[j].1 is Boolean,
        _ => false,
    }
}

/// Whether `$id`, if present, is a string.
pub open spec fn id_ok(m: Seq<(String, Json)>) -> bool {
    forall|i: int| #[trigger] first_member(m, "$id"@, i) ==> m[i].1 is String
}

/// Whether `$defs`, if present, maps names to schemas that compile.
pub open spec fn defs_ok(m: Seq<(String, Json)>) -> bool {
    forall|i: int| #[trigger] first_member(m, "$defs"@, i) ==> match m[i].1 {
        Json::Object(d) => forall|j: int| #![trigger d@[j]] 0 <= j < d@.len() ==> schema_ok(d@[j].1),
        _ => false,
    }
}

/// The first member of `m` whose keyword value does not compile is at `i`.
pub open spec fn first_bad_keyword(m: Seq<(String, Json)>, i: int) -> bool {
    &&& 0 <= i < m.len()
    &&& !is_meta(m[i].0@) && !keyword_ok(m[i].0@, m[i].1)
    &&& forall|l: int| #![trigger m[l]] 0 <= l < i && !is_meta(m[l].0@) ==> keyword_ok(m[l].0@, m[l].1)
}

/// `e` is the error that compiling the object `m` at `key` reports: the
/// checks go `$vocabulary`, `$defs`, `$id`, then the keywords in order.
pub open spec fn object_error(m: Seq<(String, Json)>, key: Seq<Segment>, e: SchemaParseError) -> bool {
    if !vocabulary_ok(m) {
        (e.kind is IllegalVocabularyType || e.kind is VocabularyNotBool)
            && extends(e.key.path(), key.push(Segment::Name("$vocabulary"@)))
    } else if !defs_ok(m) {
        extends(e.key.path(), key.push(Segment::Name("$defs"@)))
    } else if !id_ok(m) {
        e.kind is InvalidType && e.key.path() == key.push(Segment::Name("$id"@)).push(Segment::Name("$id"@))
    } else {
        exists|i: int| first_bad_keyword(m, i) && extends(e.key.path(), key.push(Segment::Name(#[trigger] m[i].0@)))
    }
}

/// Whether `v` compiles.
pub open spec fn schema_ok(v: Json) -> bool
    decreases v, 0nat,
{
    match v {
        Json::Object(m) => {
            &&& vocabulary_ok(m@)
            &&& id_ok(m@)
            &&& forall|i: int| #[trigger] first_member(m@, "$defs"@, i) ==> match m@[i].1 {
                Json::Object(d) => forall|j: int| #![trigger d@[j]] 0 <= j < d@.len() ==> schema_ok(d@[j].1),
                _ => false,
            }
            &&& forall|i: int| #![trigger m@[i]] 0 <= i < m@.len() && !is_meta(m@[i].0@) ==> keyword_ok(m@[i].0@, m@[i].1)
        },
        _ => true,
    }
}

/// Whether the value `v` of keyword `k` compiles.
pub open spec fn keyword_ok(k: Seq<char>, v: Json) -> bool
    decreases v, 1nat,
{
    if k == "allOf"@ || k == "anyOf"@ || k == "oneOf"@ {
        match v {
            Json::Array(a) => a@.len() > 0 && forall|i: int| #![trigger a@[i]] 0 <= i < a@.len() ==> schema_ok(a@[i]),
            _ => false,
        }
    } else if k == "not"@ || k == "items"@ || k == "contains"@ {
        schema_ok(v)
    } else if k == "enum"@ {
        v is Array
    } else if k == "type"@ {
        types_valid(v)
    } else if k == "prefixItems"@ {
        match v {
            Json::Array(a) => forall|i: int| #![trigger a@[i]] 0 <= i < a@.len() ==> schema_ok(a@[i]),
            _ => false,
        }
    } else {
        true
    }
}

/// `l` compiles the values `a`, one for one.
pub open spec fn each_schema_of(a: Seq<Json>, l: Seq<JsonSchema>) -> bool
    decreases a, 0nat,
{
    l.len() == a.len() && forall|i: int| #![trigger a[i]] 0 <= i < a.len() ==> schema_of(a[i], l[i])
}

/// `s` is what `v` compiles to.
pub open spec fn schema_of(v: Json, s: JsonSchema) -> bool
    decreases v, 2nat,
{
    match v {
        Json::Object(m) => {
            &&& match member(m@, "$id"@) {
                Some(Json::String(t)) => (s.id_spec() matches Some(u) && u.text() == t@),
                _ => s.id_spec() is None,
            }
            &&& match member(m@, "$vocabulary"@) {
                Some(Json::Object(vm)) => (s.vocabulary_spec() matches Some(vv) && vv@.len() == vm@.len()
                    && forall|j: int| #![trigger vm@[j]] 0 <= j < vm@.len() ==> vv@[j].0.text() == vm@[j].0@
                        && vm@[j].1 == Json::Boolean(vv@[j].1)),
                _ => s.vocabulary_spec() is None,
            }
            &&& member(m@, "$defs"@) is None ==> s.defs_spec() is None
            &&& forall|i: int| #[trigger] first_member(m@, "$defs"@, i) ==> match m@[i].1 {
                Json::Object(dm) => (s.defs_spec() matches Some(dd) && dd@.len() == dm@.len()
                    && forall|j: int| #![trigger dm@[j]] 0 <= j < dm@.len() ==> dd@[j].0@ == dm@[j].0@
                        && schema_of(dm@[j].1, dd@[j].1)),
                _ => false,
            }
            &&& roots_of(m@, s.schemas_spec(), s.unknowns_spec())
        },
        _ => {
            &&& s.id_spec() is None
            &&& s.vocabulary_spec() is None
            &&& s.defs_spec() is None
            &&& s.unknowns_spec().len() == 0
            &&& s.schemas_spec().len() == 1
            &&& (s.schemas_spec()[0] matches RootSchema::Primitive(p) && same(p, v))
        },
    }
}

/// The members compile, in order, to the assertions `roots`; the members with
/// other keywords are kept in `unknowns`, in order.
pub open spec fn roots_of(members: Seq<(String, Json)>, roots: Seq<RootSchema>, unknowns: Seq<(String, Json)>) -> bool
    decreases members, 0nat,
{
    if members.len() == 0 {
        roots.len() == 0 && unknowns.len() == 0
    } else {
        let k = members.last().0@;
        let v = members.last().1;
        if is_meta(k) {
            roots_of(members.drop_last(), roots, unknowns)
        } else if is_known(k) {
            roots.len() > 0 && keyword_root(k, v, roots.last()) && roots_of(members.drop_last(), roots.drop_last(), unknowns)
        } else {
            unknowns.len() > 0 && unknowns.last().0@ == k && same(unknowns.last().1, v)
                && roots_of(members.drop_last(), roots, unknowns.drop_last())
        }
    }
}

/// `r` is what the value `v` of keyword `k` compiles to.
pub open spec fn keyword_root(k: Seq<char>, v: Json, r: RootSchema) -> bool
    decreases v, 3nat,
{
    if k == "allOf"@ || k == "anyOf"@ || k == "oneOf"@ {
        match v {
            Json::Array(a) => match r {
                RootSchema::Logic(LogicApplier::AllOf(l)) => k == "allOf"@ && each_schema_of(a@, l@),
                RootSchema::Logic(LogicApplier::AnyOf(l)) => k == "anyOf"@ && each_schema_of(a@, l@),
                RootSchema::Logic(LogicApplier::OneOf(l)) => k == "oneOf"@ && each_schema_of(a@, l@),
                _ => false,
            },
            _ => false,
        }
    } else if k == "not"@ {
        (r matches RootSchema::Logic(LogicApplier::Not(x)) && schema_of(v, x))
    } else if k == "enum"@ {
        match v {
            Json::Array(a) => (r matches RootSchema::Enum(e) && e.values_spec().len() == a@.len()
                && forall|i: int| #![trigger a@[i]] 0 <= i < a@.len() ==> same(e.values_spec()[i], a@[i])),
            _ => false,
        }
    } else if k == "type"@ {
        (r matches RootSchema::Type(t) && types_named(v, t.types_spec()))
    } else if k == "items"@ {
        (r matches RootSchema::Items(it) && schema_of(v, it.schema_spec()))
    } else if k == "prefixItems"@ {
        match v {
            Json::Array(a) => (r matches RootSchema::PrefixItems(p) && each_schema_of(a@, p.schemas_spec())),
            _ => false,
        }
    } else if k == "contains"@ {
        (r matches RootSchema::Contains(c) && schema_of(v, c.schema_spec()))
    } else {
        false
    }
}


/// The characters of the keywords and type names.
proof fn lemma_keyword_texts()
    ensures
        "allOf"@ == seq!['a', 'l', 'l', 'O', 'f'],
        "anyOf"@ == seq!['a', 'n', 'y', 'O', 'f'],
        "oneOf"@ == seq!['o', 'n', 'e', 'O', 'f'],
        "not"@ == seq!['n', 'o', 't'],
        "enum"@ == seq!['e', 'n', 'u', 'm'],
        "type"@ == seq!['t', 'y', 'p', 'e'],
        "items"@ == seq!['i', 't', 'e', 'm', 's'],
        "prefixItems"@ == seq!['p', 'r', 'e', 'f', 'i', 'x', 'I', 't', 'e', 'm', 's'],
        "contains"@ == seq!['c', 'o', 'n', 't', 'a', 'i', 'n', 's'],
        "$vocabulary"@ == seq!['$', 'v', 'o', 'c', 'a', 'b', 'u', 'l', 'a', 'r', 'y'],
        "$defs"@ == seq!['$', 'd', 'e', 'f', 's'],
        "$id"@ == seq!['$', 'i', 'd'],
        "null"@ == seq!['n', 'u', 'l', 'l'],
        "boolean"@ == seq!['b', 'o', 'o', 'l', 'e', 'a', 'n'],
        "object"@ == seq!['o', 'b', 'j', 'e', 'c', 't'],
        "array"@ == seq!['a', 'r', 'r', 'a', 'y'],
        "number"@ == seq!['n', 'u', 'm', 'b', 'e', 'r'],
        "string"@ == seq!['s', 't', 'r', 'i', 'n', 'g'],
        "integer"@ == seq!['i', 'n', 't', 'e', 'g', 'e', 'r'],
{
    reveal_strlit("allOf");
    reveal_strlit("anyOf");
    reveal_strlit("oneOf");
    reveal_strlit("not");
    reveal_strlit("enum");
    reveal_strlit("type");
    reveal_strlit("items");
    reveal_strlit("prefixItems");
    reveal_strlit("contains");
    reveal_strlit("$vocabulary");
    reveal_strlit("$defs");
    reveal_strlit("$id");
    reveal_strlit("null");
    reveal_strlit("boolean");
    reveal_strlit("object");
    reveal_strlit("array");
    reveal_strlit("number");
    reveal_strlit("string");
    reveal_strlit("integer");
}

/// Compiles JSON values into schemas.
#[derive(Debug, Clone)]
pub struct Parser;

impl Parser {
    /// Compiles `input` into a schema. It succeeds exactly when `input` is
    /// well formed, see [`schema_ok`], and then gives what [`schema_of`] says.
    pub fn parse_json_schema(input: &Json) -> (r: Result<JsonSchema, SchemaParseError>)
        ensures
            r is Ok <==> schema_ok(*input),
            r matches Ok(s) ==> schema_of(*input, s),
            r matches Err(e) ==> (input matches Json::Object(m) && object_error(m@, Seq::empty(), e)),
    {
        let key = Key::default();
        Self::parse_json_schema_rec(key, input)
    }

    fn parse_json_schema_rec(key: Key, input: &Json) -> (r: Result<JsonSchema, SchemaParseError>)
        ensures
            r is Ok <==> schema_ok(*input),
            r matches Ok(s) ==> schema_of(*input, s),
            r matches Err(e) ==> extends(e.key.path(), key.path()) && (input matches Json::Object(m)
                ==> object_error(m@, key.path(), e)),
        decreases input, 2nat,
    {
        match input {
            Json::Object(object) => {
                proof {
                    assert(decreases_to!(*input => input->Object_0));
                }
                Self::parse_schema_object(key, object)
            },
            _ => {
                let s = JsonSchema::from_primitive(input);
                Ok(s)
            },
        }
    }

    fn parse_schema_object(key: Key, object: &Vec<(String, Json)>) -> (r: Result<JsonSchema, SchemaParseError>)
        ensures
            r is Ok <==> schema_ok(Json::Object(*object)),
            r matches Ok(s) ==> schema_of(Json::Object(*object), s),
            r matches Err(e) ==> extends(e.key.path(), key.path()) && object_error(object@, key.path(), e),
        decreases object, 1nat,
    {
        let vocabulary = match Self::parse_vocabulary(key.copy_of(), object) {
            Ok(v) => v,
            Err(e) => return Err(e),
        };
        let defs = match Self::parse_defs(key.copy_of(), object) {
            Ok(v) => v,
            Err(e) => return Err(e),
        };
        let id = match Self::parse_id(key.copy_of(), object) {
            Ok(v) => v,
            Err(e) => return Err(e),
        };
        let (other_schemas, unknowns) = match Self::parse_root_schemas(key, object) {
            Ok(v) => v,
            Err(e) => return Err(e),
        };
        Ok(JsonSchema::new(id, vocabulary, defs, other_schemas, unknowns))
    }

    /// Compiles the members of `object` other than `$vocabulary`, `$defs` and
    /// `$id`, in order; members with keywords it does not know are kept aside.
    pub fn parse_root_schemas(key: Key, object: &Vec<(String, Json)>) -> (r: Result<(Vec<RootSchema>, Vec<(String, Json)>), SchemaParseError>)
        ensures
            r is Ok <==> forall|i: int| #![trigger object@[i]] 0 <= i < object@.len() && !is_meta(object@[i].0@)
                ==> keyword_ok(object@[i].0@, object@[i].1),
            r matches Ok((roots, unknowns)) ==> roots_of(object@, roots@, unknowns@),
            r matches Err(e) ==> exists|i: int| first_bad_keyword(object@, i)
                && extends(e.key.path(), key.path().push(Segment::Name(#[trigger] object@[i].0@))),
        decreases object, 0nat,
    {
        proof {
            lemma_keyword_texts();
        }
        let mut schemas: Vec<RootSchema> = Vec::new();
        let mut unknowns: Vec<(String, Json)> = Vec::new();
        let mut i: usize = 0;
        assert(object@.take(0) =~= Seq::<(String, Json)>::empty());
        while i < object.len()
            invariant
                i <= object@.len(),
                roots_of(object@.take(i as int), schemas@, unknowns@),
                forall|j: int| #![trigger object@[j]] 0 <= j < i && !is_meta(object@[j].0@)
                    ==> keyword_ok(object@[j].0@, object@[j].1),
            decreases object@.len() - i,
        {
            let k = &object[i].0;
            let v = &object[i].1;
            let ghost prefix = object@.take(i as int + 1);
            assert(prefix.drop_last() =~= object@.take(i as int));
            assert(prefix.last() == object@[i as int]);
            if Self::is_meta_key(k) {
            } else if Self::is_known_key(k) {
                proof {
                    assert(decreases_to!(object => object@));
                    assert(decreases_to!(object@ => object@[i as int]));
                    assert(decreases_to!(object@[i as int] => object@[i as int].1));
                }
                let value = match Self::parse_keyword(key.copy_of().push_str(k.as_str()), k, v) {
                    Ok(v) => v,
                    Err(e) => return Err(e),
                };
                let ghost before = schemas@;
                schemas.push(value);
                assert(schemas@.drop_last() =~= before);
            } else {
                let ghost before = unknowns@;
                unknowns.push((k.clone(), v.duplicate()));
                assert(unknowns@.drop_last() =~= before);
                assert(keyword_ok(k@, *v));
            }
            i = i + 1;
        }
        assert(object@.take(i as int) =~= object@);
        Ok((schemas, unknowns))
    }

    /// `$vocabulary`: an object from URIs to booleans.
    fn parse_vocabulary(key: Key, object: &Vec<(String, Json)>) -> (r: Result<Option<Vec<(Uri, bool)>>, SchemaParseError>)
        ensures
            r is Ok <==> vocabulary_ok(object@),
            r matches Ok(v) ==> match member(object@, "$vocabulary"@) {
                Some(Json::Object(vm)) => (v matches Some(vv) && vv@.len() == vm@.len()
                    && forall|j: int| #![trigger vm@[j]] 0 <= j < vm@.len() ==> vv@[j].0.text() == vm@[j].0@
                        && vm@[j].1 == Json::Boolean(vv@[j].1)),
                _ => v is None,
            },
            r matches Err(e) ==> match member(object@, "$vocabulary"@) {
                Some(Json::Object(vm)) => e.kind is VocabularyNotBool && exists|i: int| 0 <= i < vm@.len()
                    && !(#[trigger] vm@[i].1 is Boolean) && (forall|l: int| #![trigger vm@[l]] 0 <= l < i ==> vm@[l].1 is Boolean)
                    && e.key.path() == key.path().push(Segment::Name("$vocabulary"@)).push(Segment::Name(vm@[i].0@)),
                _ => e.kind is IllegalVocabularyType && e.key.path()
                    == key.path().push(Segment::Name("$vocabulary"@)).push(Segment::Name("$vocabulary"@)),
            },
        decreases object, 0nat,
    {
        let vocab_key = key.push_str("$vocabulary");
        let j = match find_member(object, "$vocabulary") {
            None => return Ok(None),
            Some(j) => j,
        };
        proof {
            assert forall|i: int| #[trigger] first_member(object@, "$vocabulary"@, i) implies i == j by {
                lemma_first_member_unique(object@, "$vocabulary"@, i, j as int);
            }
        }
        let vocab_input = match &object[j].1 {
            Json::Object(vocab_input) => vocab_input,
            _ => {
                return Err(SchemaParseError {
                    key: vocab_key.push_str(object[j].0.as_str()),
                    kind: SchemaParseErrorKind::IllegalVocabularyType,
                });
            },
        };
        let mut vocabulary: Vec<(Uri, bool)> = Vec::new();
        let mut i: usize = 0;
        while i < vocab_input.len()
            invariant
                i <= vocab_input@.len(),
                j < object@.len(),
                first_member(object@, "$vocabulary"@, j as int),
                object@[j as int].1 == Json::Object(*vocab_input),
                member(object@, "$vocabulary"@) == Some(Json::Object(*vocab_input)),
                vocab_key.path() == key.path().push(Segment::Name("$vocabulary"@)),
                forall|l: int| #![trigger vocab_input@[l]] 0 <= l < i ==> vocab_input@[l].1 is Boolean,
                vocabulary@.len() == i,
                forall|l: int| #![trigger vocab_input@[l]] 0 <= l < i ==> vocabulary@[l].0.text() == vocab_input@[l].0@
                    && vocab_input@[l].1 == Json::Boolean(vocabulary@[l].1),
            decreases vocab_input@.len() - i,
        {
            let (k, v) = (&vocab_input[i].0, &vocab_input[i].1);
            let required = match v {
                Json::Boolean(req) => *req,
                _ => {
                    return Err(SchemaParseError {
                        key: vocab_key.push_str(k.as_str()),
                        kind: SchemaParseErrorKind::VocabularyNotBool,
                    });
                },
            };
            let uri = match Uri::from_string(k.clone()) {
                Ok(val) => val,
                Err(e) => {
                    return Err(SchemaParseError {
                        key: vocab_key.push_str(k.as_str()),
                        kind: SchemaParseErrorKind::InvalidUri(e),
                    });
                },
            };
            vocabulary.push((uri, required));
            i = i + 1;
        }
        Ok(Some(vocabulary))
    }

    /// `$defs`: an object from names to schemas. An error inside a definition
    /// is reported at `$defs/<name>`.
    fn parse_defs(key: Key, object: &Vec<(String, Json)>) -> (r: Result<Option<Vec<(String, JsonSchema)>>, SchemaParseError>)
        ensures
            r is Ok <==> defs_ok(object@),
            r matches Err(e) ==> match member(object@, "$defs"@) {
                Some(Json::Object(d)) => exists|i: int| 0 <= i < d@.len() && !schema_ok(#[trigger] d@[i].1)
                    && (forall|l: int| #![trigger d@[l]] 0 <= l < i ==> schema_ok(d@[l].1))
                    && e.key.path() == key.path().push(Segment::Name("$defs"@)).push(Segment::Name(d@[i].0@)),
                _ => e.kind is NotObject && e.key.path() == key.path().push(Segment::Name("$defs"@)),
            },
            r matches Ok(defs) ==> (member(object@, "$defs"@) is None ==> defs is None)
                && forall|i: int| #[trigger] first_member(object@, "$defs"@, i) ==> match object@[i].1 {
                    Json::Object(dm) => (defs matches Some(dd) && dd@.len() == dm@.len()
                        && forall|j: int| #![trigger dm@[j]] 0 <= j < dm@.len() ==> dd@[j].0@ == dm@[j].0@
                            && schema_of(dm@[j].1, dd@[j].1)),
                    _ => false,
                },
        decreases object, 0nat,
    {
        let defs_key = key.push_str("$defs");
        let j = match find_member(object, "$defs") {
            None => return Ok(None),
            Some(j) => j,
        };
        proof {
            assert forall|i: int| #[trigger] first_member(object@, "$defs"@, i) implies i == j by {
                lemma_first_member_unique(object@, "$defs"@, i, j as int);
            }
        }
        let defs_input = match &object[j].1 {
            Json::Object(d) => d,
            _ => {
                return Err(SchemaParseError { key: defs_key, kind: SchemaParseErrorKind::NotObject });
            },
        };
        let mut schemas: Vec<(String, JsonSchema)> = Vec::new();
        let mut i: usize = 0;
        while i < defs_input.len()
            invariant
                i <= defs_input@.len(),
                j < object@.len(),
                first_member(object@, "$defs"@, j as int),
                object@[j as int].1 == Json::Object(*defs_input),
                member(object@, "$defs"@) == Some(Json::Object(*defs_input)),
                defs_key.path() == key.path().push(Segment::Name("$defs"@)),
                schemas@.len() == i,
                forall|l: int| #![trigger defs_input@[l]] 0 <= l < i ==> schemas@[l].0@ == defs_input@[l].0@
                    && schema_ok(defs_input@[l].1) && schema_of(defs_input@[l].1, schemas@[l].1),
            decreases defs_input@.len() - i,
        {
            let (k, v) = (&defs_input[i].0, &defs_input[i].1);
            proof {
                assert(decreases_to!(object => object@));
                assert(decreases_to!(object@ => object@[j as int]));
                assert(decreases_to!(object@[j as int] => object@[j as int].1));
                assert(decreases_to!(object@[j as int].1 => object@[j as int].1->Object_0));
                assert(decreases_to!(defs_input => defs_input@));
                assert(decreases_to!(defs_input@ => defs_input@[i as int]));
                assert(decreases_to!(defs_input@[i as int] => defs_input@[i as int].1));
            }
            let schema = match Self::parse_json_schema_rec(defs_key.copy_of().push_str(k.as_str()), v) {
                Ok(schema) => schema,
                Err(e) => {
                    let mut e = e;
                    e.key = defs_key.copy_of().push_str(k.as_str());
                    return Err(e);
                },
            };
            schemas.push((k.clone(), schema));
            i = i + 1;
        }
        Ok(Some(schemas))
    }

    /// `$id`: a string, kept as a URI.
    fn parse_id(key: Key, input: &Vec<(String, Json)>) -> (r: Result<Option<Uri>, SchemaParseError>)
        ensures
            r is Ok <==> id_ok(input@),
            r matches Ok(id) ==> match member(input@, "$id"@) {
                Some(Json::String(t)) => (id matches Some(u) && u.text() == t@),
                _ => id is None,
            },
            r matches Err(e) ==> e.kind is InvalidType
                && e.key.path() == key.path().push(Segment::Name("$id"@)).push(Segment::Name("$id"@)),
    {
        let key = key.push_str("$id");
        let j = match find_member(input, "$id") {
            None => return Ok(None),
            Some(j) => j,
        };
        proof {
            assert forall|i: int| #[trigger] first_member(input@, "$id"@, i) implies i == j by {
                lemma_first_member_unique(input@, "$id"@, i, j as int);
            }
        }
        let string = match &input[j].1 {
            Json::String(id) => id,
            _ => {
                return Err(SchemaParseError { key: key.copy_of().push_str("$id"), kind: SchemaParseErrorKind::InvalidType });
            },
        };
        match Uri::from_string(string.clone()) {
            Ok(val) => Ok(Some(val)),
            Err(e) => Err(SchemaParseError { key, kind: SchemaParseErrorKind::InvalidUri(e) }),
        }
    }

    fn is_meta_key(k: &String) -> (r: bool)
        ensures
            r == is_meta(k@),
    {
        proof {
            lemma_keyword_texts();
        }
        str_eq(k.as_str(), "$vocabulary") || str_eq(k.as_str(), "$defs") || str_eq(k.as_str(), "$id")
    }

    fn is_known_key(k: &String) -> (r: bool)
        ensures
            r == is_known(k@),
    {
        proof {
            lemma_keyword_texts();
        }
        let k = k.as_str();
        str_eq(k, "allOf") || str_eq(k, "anyOf") || str_eq(k, "oneOf") || str_eq(k, "not") || str_eq(k, "enum")
            || str_eq(k, "type") || str_eq(k, "items") || str_eq(k, "prefixItems") || str_eq(k, "contains")
    }

    /// Compiles the value `input` of the keyword `k`.
    fn parse_keyword(key: Key, k: &String, input: &Json) -> (r: Result<RootSchema, SchemaParseError>)
        requires
            is_known(k@),
        ensures
            r is Ok <==> keyword_ok(k@, *input),
            r matches Ok(root) ==> keyword_root(k@, *input, root),
            r matches Err(e) ==> extends(e.key.path(), key.path()),
        decreases input, 4nat,
    {
        proof {
            lemma_keyword_texts();
        }
        let name = k.as_str();
        if str_eq(name, "allOf") || str_eq(name, "anyOf") || str_eq(name, "oneOf") {
            Self::parse_logic(key, k, input)
        } else if str_eq(name, "not") {
            Self::parse_not(key, input)
        } else if str_eq(name, "enum") {
            Self::parse_enum(key, input)
        } else if str_eq(name, "type") {
            Self::parse_type(key, input)
        } else if str_eq(name, "items") {
            Self::parse_items(key, input)
        } else if str_eq(name, "prefixItems") {
            Self::parse_prefix_items(key, input)
        } else {
            Self::parse_contains(key, input)
        }
    }

    /// Compiles each value of the array `array`, in order.
    fn parse_each(key: &Key, array: &Vec<Json>, with_index: bool) -> (r: Result<Vec<JsonSchema>, SchemaParseError>)
        ensures
            r is Ok <==> forall|i: int| #![trigger array@[i]] 0 <= i < array@.len() ==> schema_ok(array@[i]),
            r matches Ok(l) ==> each_schema_of(array@, l@),
            r matches Err(e) ==> extends(e.key.path(), key.path()),
        decreases array, 3nat,
    {
        let mut schemas: Vec<JsonSchema> = Vec::new();
        let mut i: usize = 0;
        while i < array.len()
            invariant
                i <= array@.len(),
                schemas@.len() == i,
                forall|j: int| #![trigger array@[j]] 0 <= j < i ==> schema_ok(array@[j]) && schema_of(array@[j], schemas@[j]),
            decreases array@.len() - i,
        {
            proof {
                assert(decreases_to!(array => array@));
                assert(decreases_to!(array@ => array@[i as int]));
            }
            let at = if with_index { key.copy_of().push_idx(i) } else { key.copy_of() };
            let schema = match Self::parse_json_schema_rec(at, &array[i]) {
                Ok(v) => v,
                Err(e) => return Err(e),
            };
            schemas.push(schema);
            i = i + 1;
        }
        Ok(schemas)
    }

    /// `allOf`, `anyOf` or `oneOf`: a non-empty array of schemas.
    fn parse_logic(key: Key, k: &String, input: &Json) -> (r: Result<RootSchema, SchemaParseError>)
        requires
            k@ == "allOf"@ || k@ == "anyOf"@ || k@ == "oneOf"@,
        ensures
            r is Ok <==> keyword_ok(k@, *input),
            r matches Ok(root) ==> keyword_root(k@, *input, root),
            r matches Err(e) ==> extends(e.key.path(), key.path()),
            r matches Err(e) ==> match *input {
                Json::Array(a) => a@.len() == 0 ==> e.kind is ArrayEmpty && e.key.path() == key.path(),
                _ => e.kind is NotArray && e.key.path() == key.path(),
            },
        decreases input, 2nat,
    {
        proof {
            lemma_keyword_texts();
        }
        let array = match input {
            Json::Array(array) => {
                if array.len() > 0 {
                    array
                } else {
                    return Err(SchemaParseError { key, kind: SchemaParseErrorKind::ArrayEmpty });
                }
            },
            _ => {
                return Err(SchemaParseError { key, kind: SchemaParseErrorKind::NotArray });
            },
        };
        proof {
            assert(decreases_to!(*input => input->Array_0));
        }
        let all_ofs = match Self::parse_each(&key, array, false) {
            Ok(v) => v,
            Err(e) => return Err(e),
        };
        if str_eq(k.as_str(), "allOf") {
            Ok(RootSchema::Logic(LogicApplier::AllOf(all_ofs)))
        } else if str_eq(k.as_str(), "anyOf") {
            Ok(RootSchema::Logic(LogicApplier::AnyOf(all_ofs)))
        } else {
            Ok(RootSchema::Logic(LogicApplier::OneOf(all_ofs)))
        }
    }

    fn parse_not(key: Key, input: &Json) -> (r: Result<RootSchema, SchemaParseError>)
        ensures
            r is Ok <==> keyword_ok("not"@, *input),
            r matches Ok(root) ==> keyword_root("not"@, *input, root),
            r matches Err(e) ==> extends(e.key.path(), key.path()),
        decreases input, 3nat,
    {
        proof {
            lemma_keyword_texts();
        }
        let schema = match Self::parse_json_schema_rec(key, input) {
            Ok(v) => v,
            Err(e) => return Err(e),
        };
        Ok(RootSchema::Logic(LogicApplier::Not(schema)))
    }

    fn parse_enum(key: Key, input: &Json) -> (r: Result<RootSchema, SchemaParseError>)
        ensures
            r is Ok <==> keyword_ok("enum"@, *input),
            r matches Ok(root) ==> keyword_root("enum"@, *input, root),
            r matches Err(e) ==> extends(e.key.path(), key.path()),
            r matches Err(e) ==> e.kind is NotArray && e.key.path() == key.path(),
    {
        proof {
            lemma_keyword_texts();
        }
        let values = match input {
            Json::Array(values) => values,
            _ => {
                return Err(SchemaParseError { key, kind: SchemaParseErrorKind::NotArray });
            },
        };
        let mut allowed: Vec<Json> = Vec::new();
        let mut i: usize = 0;
        while i < values.len()
            invariant
                i <= values@.len(),
                allowed@.len() == i,
                forall|j: int| #![trigger values@[j]] 0 <= j < i ==> same(allowed@[j], values@[j]),
            decreases values@.len() - i,
        {
            allowed.push(values[i].duplicate());
            i = i + 1;
        }
        let e = Enum::new(allowed);
        Ok(RootSchema::Enum(e))
    }

    /// The type that a name of `type` stands for.
    pub fn type_from_name(s: &str) -> (r: Option<PrimitiveType>)
        ensures
            r == type_of_name(s@),
    {
        proof {
            lemma_keyword_texts();
        }
        if str_eq(s, "null") {
            Some(PrimitiveType::Null)
        } else if str_eq(s, "boolean") {
            Some(PrimitiveType::Boolean)
        } else if str_eq(s, "object") {
            Some(PrimitiveType::Object)
        } else if str_eq(s, "array") {
            Some(PrimitiveType::Array)
        } else if str_eq(s, "number") {
            Some(PrimitiveType::Number)
        } else if str_eq(s, "string") {
            Some(PrimitiveType::String)
        } else if str_eq(s, "integer") {
            Some(PrimitiveType::Integer)
        } else {
            None
        }
    }

    fn parse_type(key: Key, input: &Json) -> (r: Result<RootSchema, SchemaParseError>)
        ensures
            r is Ok <==> keyword_ok("type"@, *input),
            r matches Ok(root) ==> keyword_root("type"@, *input, root),
            r matches Err(e) ==> extends(e.key.path(), key.path()),
            r matches Err(e) ==> e.kind is InvalidType && match *input {
                Json::Array(a) => exists|i: int| 0 <= i < a@.len() && e.key.path() == key.path().push(Segment::Index(i as usize))
                    && !(#[trigger] a@[i] matches Json::String(s) && type_of_name(s@) is Some)
                    && forall|l: int| #![trigger a@[l]] 0 <= l < i ==> (a@[l] matches Json::String(s) && type_of_name(s@) is Some),
                _ => e.key.path() == key.path(),
            },
    {
        proof {
            lemma_keyword_texts();
        }
        let types = match input {
            Json::Array(values) => {
                let mut types: Vec<PrimitiveType> = Vec::new();
                let mut i: usize = 0;
                while i < values.len()
                    invariant
                        i <= values@.len(),
                        *input == Json::Array(*values),
                        types@.len() == i,
                        forall|j: int| #![trigger values@[j]] 0 <= j < i
                            ==> (values@[j] matches Json::String(s) && type_of_name(s@) == Some(types@[j])),
                    decreases values@.len() - i,
                {
                    proof {
                        lemma_keyword_texts();
                    }
                    if let Json::String(value) = &values[i] {
                        if let Some(ty) = Self::type_from_name(value.as_str()) {
                            types.push(ty);
                        } else {
                            return Err(SchemaParseError { key: key.push_idx(i), kind: SchemaParseErrorKind::InvalidType });
                        }
                    } else {
                        return Err(SchemaParseError { key: key.push_idx(i), kind: SchemaParseErrorKind::InvalidType });
                    }
                    i = i + 1;
                }
                types
            },
            Json::String(value_str) => {
                if let Some(ty) = Self::type_from_name(value_str.as_str()) {
                    let mut types: Vec<PrimitiveType> = Vec::new();
                    types.push(ty);
                    assert(types@ =~= seq![ty]);
                    types
                } else {
                    return Err(SchemaParseError { key, kind: SchemaParseErrorKind::InvalidType });
                }
            },
            _ => {
                return Err(SchemaParseError { key, kind: SchemaParseErrorKind::InvalidType });
            },
        };
        Ok(RootSchema::Type(Type::new(types)))
    }

    fn parse_items(key: Key, input: &Json) -> (r: Result<RootSchema, SchemaParseError>)
        ensures
            r is Ok <==> keyword_ok("items"@, *input),
            r matches Ok(root) ==> keyword_root("items"@, *input, root),
            r matches Err(e) ==> extends(e.key.path(), key.path()),
        decreases input, 3nat,
    {
        proof {
            lemma_keyword_texts();
        }
        let schema = match Self::parse_json_schema_rec(key.copy_of(), input) {
            Ok(v) => v,
            Err(e) => return Err(e),
        };
        Ok(RootSchema::Items(Items::new(schema)))
    }

    fn parse_prefix_items(key: Key, input: &Json) -> (r: Result<RootSchema, SchemaParseError>)
        ensures
            r is Ok <==> keyword_ok("prefixItems"@, *input),
            r matches Ok(root) ==> keyword_root("prefixItems"@, *input, root),
            r matches Err(e) ==> extends(e.key.path(), key.path()),
        decreases input, 3nat,
    {
        proof {
            lemma_keyword_texts();
        }
        let array = match input {
            Json::Array(array) => array,
            _ => {
                return Err(SchemaParseError { key, kind: SchemaParseErrorKind::InvalidType });
            },
        };
        proof {
            assert(decreases_to!(*input => input->Array_0));
        }
        let schemas = match Self::parse_each(&key, array, true) {
            Ok(v) => v,
            Err(e) => return Err(e),
        };
        Ok(RootSchema::PrefixItems(PrefixItems::new(schemas)))
    }

    fn parse_contains(key: Key, input: &Json) -> (r: Result<RootSchema, SchemaParseError>)
        ensures
            r is Ok <==> keyword_ok("contains"@, *input),
            r matches Ok(root) ==> keyword_root("contains"@, *input, root),
            r matches Err(e) ==> extends(e.key.path(), key.path()),
        decreases input, 3nat,
    {
        proof {
            lemma_keyword_texts();
        }
        let schema = match Self::parse_json_schema_rec(key, input) {
            Ok(v) => v,
            Err(e) => return Err(e),
        };
        Ok(RootSchema::Contains(Contains::new(schema)))
    }
}

} // verus!
