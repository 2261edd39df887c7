//! Compiled schemas, the annotations that validation records, and validation.
pub mod parser;
pub mod uri;

use crate::json::{find_member, json_eq, member, same, Json, Key, Segment};
use uri::Uri;
use vstd::prelude::*;
use vstd::string::StringExecFns;

verus! {

broadcast use vstd::std_specs::vec::group_vec_axioms;

/// The type tags of JSON values, and `Integer` for numbers without a fraction.
#[derive(Debug, Clone, Copy, PartialEq, Eq, Structural)]
pub enum PrimitiveType {
    String,
    Number,
    Integer,
    Object,
    Array,
    Boolean,
    Null,
}

/// The type tag of a value (never `Integer`).
pub open spec fn type_of(j: Json) -> PrimitiveType {
    match j {
        Json::Object(_) => PrimitiveType::Object,
        Json::Array(_) => PrimitiveType::Array,
        Json::Number { .. } => PrimitiveType::Number,
        Json::String(_) => PrimitiveType::String,
        Json::Boolean(_) => PrimitiveType::Boolean,
        Json::Null => PrimitiveType::Null,
    }
}

/// Whether a value belongs to a type: `Integer` takes the numbers without
/// fraction digits, `Number` takes every number.
pub open spec fn type_matches(t: PrimitiveType, j: Json) -> bool {
    t == type_of(j) || (t == PrimitiveType::Integer && j is Number && j->fraction.1 == 0)
}

impl PrimitiveType {
    /// The type tag of a value.
    pub fn from(input: &Json) -> (r: PrimitiveType)
        ensures
            r == type_of(*input),
    {
        match input {
            Json::Object(_) => PrimitiveType::Object,
            Json::Array(_) => PrimitiveType::Array,
            Json::Number { .. } => PrimitiveType::Number,
            Json::String(_) => PrimitiveType::String,
            Json::Boolean(_) => PrimitiveType::Boolean,
            Json::Null => PrimitiveType::Null,
        }
    }

    /// Whether `input` belongs to this type.
    pub fn matches(&self, input: &Json) -> (r: bool)
        ensures
            r == type_matches(*self, *input),
    {
        if *self == PrimitiveType::from(input) {
            return true;
        }
        match self {
            PrimitiveType::Integer => match input {
                Json::Number { fraction, .. } => fraction.1 == 0,
                _ => false,
            },
            _ => false,
        }
    }
}

impl std::str::FromStr for PrimitiveType {
    type Err = String;

    /// The type that a name of `type` stands for; the name itself when it
    /// names none.
    fn from_str(s: &str) -> Result<PrimitiveType, String> {
        match parser::Parser::type_from_name(s) {
            Some(t) => Ok(t),
            None => Err(<String as StringExecFns>::from_str(s)),
        }
    }
}

impl From<ArrayError> for Annotation {
    fn from(e: ArrayError) -> (r: Annotation)
        ensures
            r == Annotation::ItemsError(e),
    {
        Annotation::ItemsError(e)
    }
}

impl vstd::std_specs::convert::FromSpecImpl<ArrayError> for Annotation {
    open spec fn obeys_from_spec() -> bool {
        true
    }

    open spec fn from_spec(v: ArrayError) -> Annotation {
        Annotation::ItemsError(v)
    }
}

/// Why a property failed.
#[derive(Debug, Clone, Copy, PartialEq, Eq, Structural)]
pub enum PropertyErrorKind {
    IncorrectType,
    Missing,
    Invalid,
}

/// Why an array keyword failed.
#[derive(Debug, Clone, Copy, PartialEq, Eq, Structural)]
pub enum ArrayErrorKind {
    NotArray,
    PrefixItemMissing,
    DoesNotContain,
}

/// Why a logic keyword failed.
#[derive(Debug, Clone, Copy, PartialEq, Eq, Structural)]
pub enum LogicErrorKind {
    AllOfMissing,
    AnyOfMissing,
    OneOfMissing,
    OneOfMoreThanOne,
    NotIs,
}

#[derive(Debug, Clone, PartialEq)]
pub struct TypeError {
    pub key: Key,
    pub actual: PrimitiveType,
}

#[derive(Debug, Clone, PartialEq)]
pub struct EnumError {
    pub key: Key,
}

#[derive(Debug, Clone, PartialEq)]
pub struct ArrayError {
    pub key: Key,
    pub kind: ArrayErrorKind,
}

/// A property failure; `name` is the name of the property that failed.
#[derive(Debug, Clone, PartialEq)]
pub struct PropertyError {
    pub name: String,
    pub key: Key,
    pub kind: PropertyErrorKind,
}

#[derive(Debug, Clone, PartialEq)]
pub struct LogicError {
    pub key: Key,
    pub kind: LogicErrorKind,
}

/// A record made during validation: an error, or the informational
/// `PrefixItemsLen` that `items` reads.
#[derive(Debug, Clone, PartialEq)]
pub enum Annotation {
    LogicError(LogicError),
    PropertyError(PropertyError),
    TypeError(TypeError),
    EnumError(EnumError),
    ItemsError(ArrayError),
    Unequal { key: Key },
    PrefixItemsLen(Key, usize),
}

/// The mathematical value of an [`Annotation`]: its kind and the path it is about.
pub enum Note {
    Logic(Seq<Segment>, LogicErrorKind),
    Property(Seq<Segment>, Seq<char>, PropertyErrorKind),
    Type(Seq<Segment>, PrimitiveType),
    Enum(Seq<Segment>),
    Array(Seq<Segment>, ArrayErrorKind),
    Unequal(Seq<Segment>),
    PrefixItemsLen(Seq<Segment>, usize),
}

impl View for Annotation {
    type V = Note;

    open spec fn view(&self) -> Note {
        match self {
            Annotation::LogicError(e) => Note::Logic(e.key.path(), e.kind),
            Annotation::PropertyError(e) => Note::Property(e.key.path(), e.name@, e.kind),
            Annotation::TypeError(e) => Note::Type(e.key.path(), e.actual),
            Annotation::EnumError(e) => Note::Enum(e.key.path()),
            Annotation::ItemsError(e) => Note::Array(e.key.path(), e.kind),
            Annotation::Unequal { key } => Note::Unequal(key.path()),
            Annotation::PrefixItemsLen(key, n) => Note::PrefixItemsLen(key.path(), *n),
        }
    }
}

impl Annotation {
    /// Whether this annotation records a failure.
    pub fn is_error(&self) -> (r: bool)
        ensures
            r == !(self@ is PrefixItemsLen),
    {
        match self {
            Annotation::PrefixItemsLen(..) => false,
            _ => true,
        }
    }
}

/// The values of a list of annotations.
pub open spec fn notes(s: Seq<Annotation>) -> Seq<Note> {
    s.map_values(|a: Annotation| a@)
}

/// The count that the most recent `PrefixItemsLen` at `path` carries, or 0.
pub open spec fn prefix_start(prior: Seq<Note>, path: Seq<Segment>) -> nat
    decreases prior.len(),
{
    if prior.len() == 0 {
        0
    } else {
        match prior.last() {
            Note::PrefixItemsLen(p, n) if p == path => n as nat,
            _ => prefix_start(prior.drop_last(), path),
        }
    }
}


/// `type`: the instance must belong to one of the types.
#[derive(Debug, Clone, PartialEq)]
pub struct Type {
    pub types: Vec<PrimitiveType>,
}

/// `enum`: the instance must equal one of the values.
#[derive(Debug, Clone, PartialEq)]
pub struct Enum {
    pub allowed_values: Vec<Json>,
}

/// One entry of `properties`: the member `name` must satisfy every schema.
#[derive(Debug, PartialEq)]
pub struct Property {
    pub required: bool,
    pub name: String,
    pub schemas: Vec<JsonSchema>,
}

/// `prefixItems`: the first elements must satisfy the schemas in order.
#[derive(Debug, PartialEq)]
pub struct PrefixItems {
    pub schemas: Vec<JsonSchema>,
}

/// `items`: the elements after those that `prefixItems` covers must satisfy
/// the schema.
#[derive(Debug, PartialEq)]
pub struct Items {
    pub schema: JsonSchema,
}

/// `contains`: some element must satisfy the schema.
#[derive(Debug, PartialEq)]
pub struct Contains {
    pub schema: JsonSchema,
}

/// `allOf`, `anyOf`, `oneOf` and `not`.
#[derive(Debug, PartialEq)]
pub enum LogicApplier {
    AllOf(Vec<JsonSchema>),
    AnyOf(Vec<JsonSchema>),
    OneOf(Vec<JsonSchema>),
    Not(JsonSchema),
}

/// Why a logic keyword cannot be built.
#[derive(Debug)]
pub enum LogicValidationError {
    SchemaArrayEmpty(LogicApplier),
}

/// One assertion of a schema.
#[derive(Debug, PartialEq)]
pub enum RootSchema {
    Ref(Box<RootSchema>),
    Primitive(Json),
    Logic(LogicApplier),
    Properties(Vec<Property>),
    Type(Type),
    Enum(Enum),
    Items(Items),
    PrefixItems(PrefixItems),
    Contains(Contains),
}

/// A compiled schema: its identifier, vocabulary, definitions, the assertions
/// that validation checks, and the keywords it does not know.
#[derive(Debug, PartialEq)]
pub struct JsonSchema {
    pub id: Option<Uri>,
    pub vocabulary: Option<Vec<(Uri, bool)>>,
    pub defs: Option<Vec<(String, JsonSchema)>>,
    pub schemas: Vec<RootSchema>,
    pub unknowns: Vec<(String, Json)>,
}

impl JsonSchema {
    pub open spec fn id_spec(&self) -> Option<Uri> {
        self.id
    }

    pub open spec fn vocabulary_spec(&self) -> Option<Vec<(Uri, bool)>> {
        self.vocabulary
    }

    pub open spec fn defs_spec(&self) -> Option<Vec<(String, JsonSchema)>> {
        self.defs
    }

    pub open spec fn schemas_spec(&self) -> Seq<RootSchema> {
        self.schemas@
    }

    pub open spec fn unknowns_spec(&self) -> Seq<(String, Json)> {
        self.unknowns@
    }

    pub fn new(
        id: Option<Uri>,
        vocabulary: Option<Vec<(Uri, bool)>>,
        defs: Option<Vec<(String, JsonSchema)>>,
        schemas: Vec<RootSchema>,
        unknowns: Vec<(String, Json)>,
    ) -> (r: JsonSchema)
        ensures
            r.id_spec() == id,
            r.vocabulary_spec() == vocabulary,
            r.defs_spec() == defs,
            r.schemas_spec() == schemas@,
            r.unknowns_spec() == unknowns@,
    {
        JsonSchema { id, vocabulary, defs, schemas, unknowns }
    }

    /// A schema with these assertions and nothing else.
    pub fn with_root_schemas(schemas: Vec<RootSchema>) -> (r: JsonSchema)
        ensures
            r.id_spec() is None,
            r.vocabulary_spec() is None,
            r.defs_spec() is None,
            r.schemas_spec() == schemas@,
            r.unknowns_spec().len() == 0,
    {
        JsonSchema { id: None, vocabulary: None, defs: None, unknowns: Vec::new(), schemas }
    }

    /// A schema that an instance satisfies when it equals `primitive`.
    pub fn from_primitive(primitive: &Json) -> (r: JsonSchema)
        ensures
            r.id_spec() is None,
            r.vocabulary_spec() is None,
            r.defs_spec() is None,
            r.schemas_spec().len() == 1,
            r.schemas_spec()[0] matches RootSchema::Primitive(p) && same(p, *primitive),
            r.unknowns_spec().len() == 0,
    {
        let mut schemas: Vec<RootSchema> = Vec::new();
        schemas.push(RootSchema::Primitive(primitive.duplicate()));
        JsonSchema { id: None, vocabulary: None, defs: None, unknowns: Vec::new(), schemas }
    }

    pub fn id(&self) -> (r: &Option<Uri>)
        ensures
            *r == self.id_spec(),
    {
        &self.id
    }

    pub fn vocabulary(&self) -> (r: &Option<Vec<(Uri, bool)>>)
        ensures
            *r == self.vocabulary_spec(),
    {
        &self.vocabulary
    }

    pub fn defs(&self) -> (r: &Option<Vec<(String, JsonSchema)>>)
        ensures
            *r == self.defs_spec(),
    {
        &self.defs
    }

    pub fn schemas(&self) -> (r: &Vec<RootSchema>)
        ensures
            r@ == self.schemas_spec(),
    {
        &self.schemas
    }

    pub fn unknowns(&self) -> (r: &Vec<(String, Json)>)
        ensures
            r@ == self.unknowns_spec(),
    {
        &self.unknowns
    }
}

/// The outcome of validating an instance.
#[derive(Debug, Clone)]
pub struct ValidationResult {
    pub success: bool,
    pub annotations: Vec<Annotation>,
}

impl ValidationResult {
    pub fn success(&self) -> (r: bool)
        ensures
            r == self.success,
    {
        self.success
    }

    pub fn annotations(&self) -> (r: &Vec<Annotation>)
        ensures
            r@ == self.annotations@,
    {
        &self.annotations
    }
}

/// Whether `j` belongs to one of `types`.
pub open spec fn some_type_matches(types: Seq<PrimitiveType>, j: Json) -> bool {
    exists|k: int| 0 <= k < types.len() && type_matches(#[trigger] types[k], j)
}

/// Whether `j` equals one of `values`.
pub open spec fn some_value_equals(values: Seq<Json>, j: Json) -> bool {
    exists|k: int| 0 <= k < values.len() && json_eq(#[trigger] values[k], j)
}

// The meaning of validation. Each function takes the path of the instance, the
// instance, and the annotations recorded before; it gives the success flag and
// the annotations recorded, in the order they are recorded.

/// Validation against a whole schema: every assertion must hold.
pub open spec fn schema_check(s: JsonSchema, path: Seq<Segment>, inst: Json, prior: Seq<Note>) -> (bool, Seq<Note>)
    decreases s, 0nat,
{
    roots_check(s.schemas, 0, path, inst, prior)
}

/// The assertions of `l` from `i` on, each on the same instance.
pub open spec fn roots_check(l: Vec<RootSchema>, i: int, path: Seq<Segment>, inst: Json, prior: Seq<Note>) -> (bool, Seq<Note>)
    decreases l, l@.len() - i,
{
    if 0 <= i < l@.len() {
        let (ok, out) = root_check(l@[i], path, inst, prior);
        let (rest_ok, rest) = roots_check(l, i + 1, path, inst, prior + out);
        (ok && rest_ok, out + rest)
    } else {
        (true, Seq::empty())
    }
}

/// The number of schemas of `l`, from `i` on, that the instance satisfies.
pub open spec fn count_check(l: Vec<JsonSchema>, i: int, path: Seq<Segment>, inst: Json, prior: Seq<Note>) -> (nat, Seq<Note>)
    decreases l, l@.len() - i,
{
    if 0 <= i < l@.len() {
        let (ok, out) = schema_check(l@[i], path, inst, prior);
        let (n, rest) = count_check(l, i + 1, path, inst, prior + out);
        (if ok { n + 1 } else { n }, out + rest)
    } else {
        (0, Seq::empty())
    }
}

/// The properties of `l` from `i` on.
pub open spec fn properties_check(l: Vec<Property>, i: int, path: Seq<Segment>, inst: Json, prior: Seq<Note>) -> (bool, Seq<Note>)
    decreases l, l@.len() - i,
{
    if 0 <= i < l@.len() {
        let (ok, out) = property_check(l@[i], path, inst, prior);
        let (rest_ok, rest) = properties_check(l, i + 1, path, inst, prior + out);
        (ok && rest_ok, out + rest)
    } else {
        (true, Seq::empty())
    }
}

/// One property: the member must satisfy every schema; a missing member fails
/// only a required property.
pub open spec fn property_check(p: Property, path: Seq<Segment>, inst: Json, prior: Seq<Note>) -> (bool, Seq<Note>)
    decreases p, 0nat,
{
    match inst {
        Json::Object(m) => match member(m@, p.name@) {
            Some(v) => {
                let at = path.push(Segment::Name(p.name@));
                let (n, out) = count_check(p.schemas, 0, at, v, prior);
                if n != p.schemas@.len() {
                    (false, out.push(Note::Property(at, p.name@, PropertyErrorKind::Invalid)))
                } else {
                    (true, out)
                }
            },
            None => (!p.required, seq![Note::Property(path, p.name@, PropertyErrorKind::Missing)]),
        },
        _ => (false, seq![Note::Property(path, p.name@, PropertyErrorKind::IncorrectType)]),
    }
}

/// `prefixItems` from schema `i` on, over the elements `arr`.
pub open spec fn prefix_check(l: Vec<JsonSchema>, i: int, arr: Seq<Json>, path: Seq<Segment>, prior: Seq<Note>) -> (bool, Seq<Note>)
    decreases l, l@.len() - i,
{
    if 0 <= i < l@.len() {
        let at = path.push(Segment::Index(i as usize));
        let (ok, out) = if i < arr.len() {
            schema_check(l@[i], at, arr[i], prior)
        } else {
            (false, seq![Note::Array(at, ArrayErrorKind::PrefixItemMissing)])
        };
        let (rest_ok, rest) = prefix_check(l, i + 1, arr, path, prior + out);
        (ok && rest_ok, out + rest)
    } else {
        (true, Seq::empty())
    }
}

/// `items` over the elements of `arr` from `i` on.
pub open spec fn items_check(s: JsonSchema, arr: Seq<Json>, i: int, path: Seq<Segment>, prior: Seq<Note>) -> (bool, Seq<Note>)
    decreases s, arr.len() - i,
{
    if 0 <= i < arr.len() {
        let (ok, out) = schema_check(s, path.push(Segment::Index(i as usize)), arr[i], prior);
        let (rest_ok, rest) = items_check(s, arr, i + 1, path, prior + out);
        (ok && rest_ok, out + rest)
    } else {
        (true, Seq::empty())
    }
}

/// `contains` over the elements of `arr` from `i` on: whether any satisfies `s`.
pub open spec fn contains_check(s: JsonSchema, arr: Seq<Json>, i: int, path: Seq<Segment>, prior: Seq<Note>) -> (bool, Seq<Note>)
    decreases s, arr.len() - i,
{
    if 0 <= i < arr.len() {
        let (ok, out) = schema_check(s, path.push(Segment::Index(i as usize)), arr[i], prior);
        let (rest_any, rest) = contains_check(s, arr, i + 1, path, prior + out);
        (ok || rest_any, out + rest)
    } else {
        (false, Seq::empty())
    }
}

/// Validation against a logic keyword.
pub open spec fn logic_check(l: LogicApplier, path: Seq<Segment>, inst: Json, prior: Seq<Note>) -> (bool, Seq<Note>)
    decreases l, 0nat,
{
    match l {
        LogicApplier::Not(s) => {
            let (ok, out) = schema_check(s, path, inst, prior);
            if ok {
                (false, out.push(Note::Logic(path, LogicErrorKind::NotIs)))
            } else {
                (true, out)
            }
        },
        LogicApplier::AllOf(v) => {
            let (n, out) = count_check(v, 0, path, inst, prior);
            if n != v@.len() {
                (false, out.push(Note::Logic(path, LogicErrorKind::AllOfMissing)))
            } else {
                (true, out)
            }
        },
        LogicApplier::AnyOf(v) => {
            let (n, out) = count_check(v, 0, path, inst, prior);
            if n == 0 {
                (false, out.push(Note::Logic(path, LogicErrorKind::AnyOfMissing)))
            } else {
                (true, out)
            }
        },
        LogicApplier::OneOf(v) => {
            let (n, out) = count_check(v, 0, path, inst, prior);
            if n == 0 {
                (false, out.push(Note::Logic(path, LogicErrorKind::OneOfMissing)))
            } else if n > 1 {
                (false, out.push(Note::Logic(path, LogicErrorKind::OneOfMoreThanOne)))
            } else {
                (true, out)
            }
        },
    }
}

/// Validation against one assertion.
pub open spec fn root_check(r: RootSchema, path: Seq<Segment>, inst: Json, prior: Seq<Note>) -> (bool, Seq<Note>)
    decreases r, 0nat,
{
    match r {
        RootSchema::Ref(b) => root_check(*b, path, inst, prior),
        RootSchema::Primitive(v) => if json_eq(inst, v) {
            (true, Seq::empty())
        } else {
            (false, seq![Note::Unequal(path)])
        },
        RootSchema::Logic(l) => logic_check(l, path, inst, prior),
        RootSchema::Properties(ps) => properties_check(ps, 0, path, inst, prior),
        RootSchema::Type(t) => if some_type_matches(t.types@, inst) {
            (true, Seq::empty())
        } else {
            (false, seq![Note::Type(path, type_of(inst))])
        },
        RootSchema::Enum(e) => if some_value_equals(e.allowed_values@, inst) {
            (true, Seq::empty())
        } else {
            (false, seq![Note::Enum(path)])
        },
        RootSchema::Items(it) => match inst {
            Json::Array(arr) => items_check(it.schema, arr@, prefix_start(prior, path) as int, path, prior),
            _ => (false, seq![Note::Array(path, ArrayErrorKind::NotArray)]),
        },
        RootSchema::PrefixItems(p) => match inst {
            Json::Array(arr) => {
                let (ok, out) = prefix_check(p.schemas, 0, arr@, path, prior);
                (ok, out.push(Note::PrefixItemsLen(path, p.schemas@.len() as usize)))
            },
            _ => (false, seq![Note::Array(path, ArrayErrorKind::NotArray)]),
        },
        RootSchema::Contains(c) => match inst {
            Json::Array(arr) => contains_check(c.schema, arr@, 0, path, prior),
            _ => (false, seq![Note::Array(path, ArrayErrorKind::NotArray)]),
        },
    }
}


/// `r` is the outcome of validating `inst` against `s` from the root.
pub open spec fn validated(s: JsonSchema, inst: Json, r: ValidationResult) -> bool {
    let (ok, out) = schema_check(s, Seq::empty(), inst, Seq::empty());
    r.success == ok && notes(r.annotations@) == out
}

/// `after` is `before` with the annotations of `outcome` added, and `r` is its
/// success flag.
pub open spec fn recorded(before: Seq<Annotation>, after: Seq<Annotation>, outcome: (bool, Seq<Note>), r: bool) -> bool {
    r == outcome.0 && notes(after) == notes(before) + outcome.1 && kept(before, after)
}

/// `after` starts with the annotations of `before`, unchanged.
pub open spec fn kept(before: Seq<Annotation>, after: Seq<Annotation>) -> bool {
    before.len() <= after.len() && forall|i: int| 0 <= i < before.len() ==> #[trigger] after[i] == before[i]
}

/// The count that the most recent `PrefixItemsLen` annotation at the path of
/// `key` carries, or 0.
pub fn prefix_len(annotations: &Vec<Annotation>, key: &Key) -> (r: usize)
    ensures
        r == prefix_start(notes(annotations@), key.path()),
{
    let ghost all = notes(annotations@);
    let mut k: usize = annotations.len();
    assert(all.take(k as int) =~= all);
    while k > 0
        invariant
            k <= annotations@.len(),
            all == notes(annotations@),
            prefix_start(all, key.path()) == prefix_start(all.take(k as int), key.path()),
        decreases k,
    {
        k = k - 1;
        let ghost before = all.take(k as int + 1);
        assert(before.drop_last() =~= all.take(k as int));
        assert(before.last() == annotations@[k as int]@);
        match &annotations[k] {
            Annotation::PrefixItemsLen(p, n) => {
                if p.same_path(key) {
                    return *n;
                }
            },
            _ => {},
        }
    }
    0
}

/// Adds one annotation.
fn record(annotations: &mut Vec<Annotation>, a: Annotation)
    ensures
        notes(final(annotations)@) == notes(old(annotations)@).push(a@),
        notes(final(annotations)@) == notes(old(annotations)@) + seq![a@],
        kept(old(annotations)@, final(annotations)@),
{
    annotations.push(a);
    assert(notes(annotations@) =~= notes(old(annotations)@).push(a@));
    assert(notes(annotations@) =~= notes(old(annotations)@) + seq![a@]);
}

/// Validates `input` against each schema of `l` in turn; returns how many it satisfies.
fn count_valid(l: &Vec<JsonSchema>, key_to_input: &Key, input: &Json, annotations: &mut Vec<Annotation>) -> (r: usize)
    ensures
        ({
            let (n, out) = count_check(*l, 0, key_to_input.path(), *input, notes(old(annotations)@));
            r == n && notes(final(annotations)@) == notes(old(annotations)@) + out
        }),
        kept(old(annotations)@, final(annotations)@),
    decreases l, 0nat,
{
    let ghost path = key_to_input.path();
    let ghost n0 = notes(annotations@);
    let ghost mut done: Seq<Note> = Seq::empty();
    let mut count: usize = 0;
    let mut i: usize = 0;
    assert(n0 + done =~= n0);
    while i < l.len()
        invariant
            i <= l@.len(),
            count <= i,
            path == key_to_input.path(),
            notes(annotations@) == n0 + done,
            kept(old(annotations)@, annotations@),
            ({
                let (n, rest) = count_check(*l, i as int, path, *input, n0 + done);
                count_check(*l, 0, path, *input, n0) == ((count + n) as nat, done + rest)
            }),
        decreases l@.len() - i,
    {
        let ghost cur = n0 + done;
        let ghost (ok, out) = schema_check(l@[i as int], path, *input, cur);
        let ghost (n, rest) = count_check(*l, i as int + 1, path, *input, cur + out);
        proof {
            assert(decreases_to!(l => l@));
            assert(decreases_to!(l@ => l@[i as int]));
        }
        let valid = l[i].validate_json(key_to_input.copy_of(), input, annotations);
        if valid {
            count = count + 1;
        }
        proof {
            assert(cur + out =~= n0 + (done + out));
            assert(done + (out + rest) =~= (done + out) + rest);
            done = done + out;
        }
        i = i + 1;
    }
    assert(done + Seq::<Note>::empty() =~= done);
    count
}

impl JsonSchema {
    /// Validates `input`, found at `key_to_input`, against every assertion of
    /// this schema, adding what it records to `annotations`.
    pub fn validate_json(&self, key_to_input: Key, input: &Json, annotations: &mut Vec<Annotation>) -> (r: bool)
        ensures
            recorded(old(annotations)@, final(annotations)@,
                schema_check(*self, key_to_input.path(), *input, notes(old(annotations)@)), r),
        decreases self, 0nat,
    {
        let ghost path = key_to_input.path();
        let ghost n0 = notes(annotations@);
        let ghost mut done: Seq<Note> = Seq::empty();
        let l = &self.schemas;
        let mut success = true;
        let mut i: usize = 0;
        assert(n0 + done =~= n0);
        while i < l.len()
            invariant
                i <= l@.len(),
                *l == self.schemas,
                path == key_to_input.path(),
                notes(annotations@) == n0 + done,
            kept(old(annotations)@, annotations@),
                kept(old(annotations)@, annotations@),
                ({
                    let (ok, rest) = roots_check(*l, i as int, path, *input, n0 + done);
                    roots_check(*l, 0, path, *input, n0) == (success && ok, done + rest)
                }),
            decreases l@.len() - i,
        {
            let ghost cur = n0 + done;
            let ghost (ok, out) = root_check(l@[i as int], path, *input, cur);
            let ghost (rok, rest) = roots_check(*l, i as int + 1, path, *input, cur + out);
            proof {
                assert(decreases_to!(*self => self.schemas));
                assert(decreases_to!(self.schemas => self.schemas@));
                assert(decreases_to!(self.schemas@ => self.schemas@[i as int]));
            }
            if !l[i].validate_json(self, key_to_input.copy_of(), input, annotations) {
                success = false;
            }
            proof {
                assert(cur + out =~= n0 + (done + out));
                assert(done + (out + rest) =~= (done + out) + rest);
                done = done + out;
            }
            i = i + 1;
        }
        assert(done + Seq::<Note>::empty() =~= done);
        success
    }

    /// Validates `instance` from the root, with no annotations before.
    pub fn validate(&self, instance: &Json) -> (r: ValidationResult)
        ensures
            validated(*self, *instance, r),
    {
        let mut annotations: Vec<Annotation> = Vec::new();
        assert(notes(annotations@) =~= Seq::<Note>::empty());
        let success = self.validate_json(Key::default(), instance, &mut annotations);
        assert(notes(annotations@) =~= Seq::<Note>::empty() + notes(annotations@));
        ValidationResult { success, annotations }
    }
}

impl RootSchema {
    /// Validates `input` against this assertion; `parent` is the schema that
    /// holds it.
    pub fn validate_json(&self, parent: &JsonSchema, key_to_input: Key, input: &Json, annotations: &mut Vec<Annotation>) -> (r: bool)
        ensures
            recorded(old(annotations)@, final(annotations)@,
                root_check(*self, key_to_input.path(), *input, notes(old(annotations)@)), r),
        decreases self, 0nat,
    {
        match self {
            RootSchema::Ref(schema) => {
                proof {
                    assert(decreases_to!(*self => self->Ref_0));
                }
                schema.validate_json(parent, key_to_input, input, annotations)
            },
            RootSchema::Primitive(primitive) => {
                if !input.equals(primitive) {
                    record(annotations, Annotation::Unequal { key: key_to_input.copy_of() });
                    false
                } else {
                    assert(notes(annotations@) =~= notes(old(annotations)@) + Seq::<Note>::empty());
                    true
                }
            },
            RootSchema::Logic(logic) => {
                proof {
                    assert(decreases_to!(*self => self->Logic_0));
                }
                logic.validate_json(key_to_input, input, annotations)
            },
            RootSchema::Properties(properties) => {
                proof {
                    assert(decreases_to!(*self => self->Properties_0));
                }
                validate_properties(properties, &key_to_input, input, annotations)
            },
            RootSchema::Type(ty) => ty.validate_json(key_to_input, input, annotations),
            RootSchema::Enum(en) => en.validate_json(key_to_input, input, annotations),
            RootSchema::PrefixItems(items) => {
                proof {
                    assert(decreases_to!(*self => self->PrefixItems_0));
                }
                items.validate_json(key_to_input, input, annotations)
            },
            RootSchema::Items(items) => {
                proof {
                    assert(decreases_to!(*self => self->Items_0));
                }
                items.validate_json(key_to_input, input, annotations)
            },
            RootSchema::Contains(contains) => {
                proof {
                    assert(decreases_to!(*self => self->Contains_0));
                }
                contains.validate_json(key_to_input, input, annotations)
            },
        }
    }
}

/// Validates `input` against each property of `l` in turn.
fn validate_properties(l: &Vec<Property>, key_to_input: &Key, input: &Json, annotations: &mut Vec<Annotation>) -> (r: bool)
    ensures
        recorded(old(annotations)@, final(annotations)@,
            properties_check(*l, 0, key_to_input.path(), *input, notes(old(annotations)@)), r),
    decreases l, 0nat,
{
    let ghost path = key_to_input.path();
    let ghost n0 = notes(annotations@);
    let ghost mut done: Seq<Note> = Seq::empty();
    let mut success = true;
    let mut i: usize = 0;
    assert(n0 + done =~= n0);
    while i < l.len()
        invariant
            i <= l@.len(),
            path == key_to_input.path(),
            notes(annotations@) == n0 + done,
            kept(old(annotations)@, annotations@),
            ({
                let (ok, rest) = properties_check(*l, i as int, path, *input, n0 + done);
                properties_check(*l, 0, path, *input, n0) == (success && ok, done + rest)
            }),
        decreases l@.len() - i,
    {
        let ghost cur = n0 + done;
        let ghost (ok, out) = property_check(l@[i as int], path, *input, cur);
        let ghost (rok, rest) = properties_check(*l, i as int + 1, path, *input, cur + out);
        proof {
            assert(decreases_to!(l => l@));
            assert(decreases_to!(l@ => l@[i as int]));
        }
        if !l[i].validate_json(key_to_input.copy_of(), input, annotations) {
            success = false;
        }
        proof {
            assert(cur + out =~= n0 + (done + out));
            assert(done + (out + rest) =~= (done + out) + rest);
            done = done + out;
        }
        i = i + 1;
    }
    assert(done + Seq::<Note>::empty() =~= done);
    success
}


impl LogicApplier {
    /// Validates `input` against this logic keyword.
    pub fn validate_json(&self, key_to_input: Key, input: &Json, annotations: &mut Vec<Annotation>) -> (r: bool)
        ensures
            recorded(old(annotations)@, final(annotations)@,
                logic_check(*self, key_to_input.path(), *input, notes(old(annotations)@)), r),
        decreases self, 0nat,
    {
        let ghost path = key_to_input.path();
        let schemas = match self {
            LogicApplier::AllOf(schemas) | LogicApplier::AnyOf(schemas) | LogicApplier::OneOf(schemas) => schemas,
            LogicApplier::Not(schema) => {
                proof {
                    assert(decreases_to!(*self => self->Not_0));
                }
                if schema.validate_json(key_to_input.copy_of(), input, annotations) {
                    record(annotations, Annotation::LogicError(LogicError { key: key_to_input, kind: LogicErrorKind::NotIs }));
                    return false;
                }
                return true;
            },
        };
        proof {
            match self {
                LogicApplier::AllOf(v) => assert(decreases_to!(*self => self->AllOf_0)),
                LogicApplier::AnyOf(v) => assert(decreases_to!(*self => self->AnyOf_0)),
                LogicApplier::OneOf(v) => assert(decreases_to!(*self => self->OneOf_0)),
                _ => {},
            }
        }
        let total_size = schemas.len();
        let valid = count_valid(schemas, &key_to_input, input, annotations);
        match self {
            LogicApplier::AllOf(_) => if valid != total_size {
                record(annotations, Annotation::LogicError(LogicError { key: key_to_input, kind: LogicErrorKind::AllOfMissing }));
                false
            } else {
                true
            },
            LogicApplier::AnyOf(_) => if valid == 0 {
                record(annotations, Annotation::LogicError(LogicError { key: key_to_input, kind: LogicErrorKind::AnyOfMissing }));
                false
            } else {
                true
            },
            _ => if valid == 0 {
                record(annotations, Annotation::LogicError(LogicError { key: key_to_input, kind: LogicErrorKind::OneOfMissing }));
                false
            } else if valid != 1 {
                record(annotations, Annotation::LogicError(LogicError { key: key_to_input, kind: LogicErrorKind::OneOfMoreThanOne }));
                false
            } else {
                true
            },
        }
    }
}

impl Property {
    pub open spec fn name_spec(&self) -> Seq<char> {
        self.name@
    }

    pub open spec fn required_spec(&self) -> bool {
        self.required
    }

    pub open spec fn schemas_spec(&self) -> Seq<JsonSchema> {
        self.schemas@
    }

    pub fn new(name: &str, schemas: Vec<JsonSchema>, required: bool) -> (r: Property)
        ensures
            r.name_spec() == name@,
            r.schemas_spec() == schemas@,
            r.required_spec() == required,
    {
        Property { name: String::from_str(name), schemas, required }
    }

    pub fn set_required(&mut self, required: bool)
        ensures
            final(self).required_spec() == required,
            final(self).name_spec() == old(self).name_spec(),
            final(self).schemas_spec() == old(self).schemas_spec(),
    {
        self.required = required;
    }

    /// Validates the member of `input` that this property names.
    pub fn validate_json(&self, key_to_input: Key, input: &Json, annotations: &mut Vec<Annotation>) -> (r: bool)
        ensures
            recorded(old(annotations)@, final(annotations)@,
                property_check(*self, key_to_input.path(), *input, notes(old(annotations)@)), r),
        decreases self, 0nat,
    {
        let object = match input {
            Json::Object(obj) => obj,
            _ => {
                record(annotations, Annotation::PropertyError(PropertyError {
                    name: self.name.clone(),
                    key: key_to_input,
                    kind: PropertyErrorKind::IncorrectType,
                }));
                return false;
            },
        };
        match find_member(object, self.name.as_str()) {
            Some(j) => {
                let input_key = key_to_input.copy_of().push_str(self.name.as_str());
                proof {
                    assert(decreases_to!(*self => self.schemas));
                }
                let valid = count_valid(&self.schemas, &input_key, &object[j].1, annotations);
                if valid != self.schemas.len() {
                    record(annotations, Annotation::PropertyError(PropertyError {
                        name: self.name.clone(),
                        key: input_key,
                        kind: PropertyErrorKind::Invalid,
                    }));
                    false
                } else {
                    true
                }
            },
            None => {
                record(annotations, Annotation::PropertyError(PropertyError {
                    name: self.name.clone(),
                    key: key_to_input,
                    kind: PropertyErrorKind::Missing,
                }));
                !self.required
            },
        }
    }
}

impl Type {
    pub open spec fn types_spec(&self) -> Seq<PrimitiveType> {
        self.types@
    }

    pub fn new(types: Vec<PrimitiveType>) -> (r: Type)
        ensures
            r.types_spec() == types@,
    {
        Type { types }
    }

    /// Validates that `input` belongs to one of the types.
    pub fn validate_json(&self, key_to_input: Key, input: &Json, annotations: &mut Vec<Annotation>) -> (r: bool)
        ensures
            recorded(old(annotations)@, final(annotations)@,
                root_check(RootSchema::Type(*self), key_to_input.path(), *input, notes(old(annotations)@)), r),
    {
        let mut k: usize = 0;
        while k < self.types.len()
            invariant
                k <= self.types@.len(),
                forall|l: int| 0 <= l < k ==> !type_matches(#[trigger] self.types@[l], *input),
            decreases self.types@.len() - k,
        {
            if self.types[k].matches(input) {
                assert(notes(annotations@) =~= notes(old(annotations)@) + Seq::<Note>::empty());
                assert(type_matches(self.types@[k as int], *input));
                return true;
            }
            k = k + 1;
        }
        assert(!some_type_matches(self.types@, *input));
        let actual = PrimitiveType::from(input);
        record(annotations, Annotation::TypeError(TypeError { key: key_to_input, actual }));
        false
    }
}

impl Enum {
    pub open spec fn values_spec(&self) -> Seq<Json> {
        self.allowed_values@
    }

    pub fn new(values: Vec<Json>) -> (r: Enum)
        ensures
            r.values_spec() == values@,
    {
        Enum { allowed_values: values }
    }

    /// Validates that `input` equals one of the allowed values.
    pub fn validate_json(&self, key_to_input: Key, input: &Json, annotations: &mut Vec<Annotation>) -> (r: bool)
        ensures
            recorded(old(annotations)@, final(annotations)@,
                root_check(RootSchema::Enum(*self), key_to_input.path(), *input, notes(old(annotations)@)), r),
    {
        let mut k: usize = 0;
        while k < self.allowed_values.len()
            invariant
                k <= self.allowed_values@.len(),
                forall|l: int| 0 <= l < k ==> !json_eq(#[trigger] self.allowed_values@[l], *input),
            decreases self.allowed_values@.len() - k,
        {
            if self.allowed_values[k].equals(input) {
                assert(notes(annotations@) =~= notes(old(annotations)@) + Seq::<Note>::empty());
                assert(json_eq(self.allowed_values@[k as int], *input));
                return true;
            }
            k = k + 1;
        }
        assert(!some_value_equals(self.allowed_values@, *input));
        record(annotations, Annotation::EnumError(EnumError { key: key_to_input }));
        false
    }
}


impl PrefixItems {
    pub open spec fn schemas_spec(&self) -> Seq<JsonSchema> {
        self.schemas@
    }

    pub fn new(schemas: Vec<JsonSchema>) -> (r: PrefixItems)
        ensures
            r.schemas_spec() == schemas@,
    {
        PrefixItems { schemas }
    }

    /// Validates the first elements of `input` against the schemas in order,
    /// then records how many schemas there are.
    pub fn validate_json(&self, key_to_input: Key, input: &Json, annotations: &mut Vec<Annotation>) -> (r: bool)
        ensures
            recorded(old(annotations)@, final(annotations)@,
                root_check(RootSchema::PrefixItems(*self), key_to_input.path(), *input, notes(old(annotations)@)), r),
        decreases self, 0nat,
    {
        let array = match input {
            Json::Array(array) => array,
            _ => {
                record(annotations, Annotation::ItemsError(ArrayError { key: key_to_input, kind: ArrayErrorKind::NotArray }));
                return false;
            },
        };
        let ghost path = key_to_input.path();
        let ghost n0 = notes(annotations@);
        let ghost mut done: Seq<Note> = Seq::empty();
        let l = &self.schemas;
        let mut success = true;
        let mut i: usize = 0;
        assert(n0 + done =~= n0);
        while i < l.len()
            invariant
                i <= l@.len(),
                *l == self.schemas,
                path == key_to_input.path(),
                notes(annotations@) == n0 + done,
            kept(old(annotations)@, annotations@),
                kept(old(annotations)@, annotations@),
                ({
                    let (ok, rest) = prefix_check(*l, i as int, array@, path, n0 + done);
                    prefix_check(*l, 0, array@, path, n0) == (success && ok, done + rest)
                }),
            decreases l@.len() - i,
        {
            let ghost cur = n0 + done;
            let ghost at = path.push(Segment::Index(i));
            let ghost (ok, out) = if i < array@.len() {
                schema_check(l@[i as int], at, array@[i as int], cur)
            } else {
                (false, seq![Note::Array(at, ArrayErrorKind::PrefixItemMissing)])
            };
            let ghost (rok, rest) = prefix_check(*l, i as int + 1, array@, path, cur + out);
            proof {
                assert(decreases_to!(*self => self.schemas));
                assert(decreases_to!(self.schemas => self.schemas@));
                assert(decreases_to!(self.schemas@ => self.schemas@[i as int]));
            }
            if i < array.len() {
                if !l[i].validate_json(key_to_input.copy_of().push_idx(i), &array[i], annotations) {
                    success = false;
                }
            } else {
                success = false;
                record(annotations, Annotation::ItemsError(ArrayError {
                    key: key_to_input.copy_of().push_idx(i),
                    kind: ArrayErrorKind::PrefixItemMissing,
                }));
            }
            proof {
                assert(cur + out =~= n0 + (done + out));
                assert(done + (out + rest) =~= (done + out) + rest);
                done = done + out;
            }
            i = i + 1;
        }
        assert(done + Seq::<Note>::empty() =~= done);
        record(annotations, Annotation::PrefixItemsLen(key_to_input, self.schemas.len()));
        success
    }
}

impl Items {
    pub open spec fn schema_spec(&self) -> JsonSchema {
        self.schema
    }

    pub fn new(schema: JsonSchema) -> (r: Items)
        ensures
            r.schema_spec() == schema,
    {
        Items { schema }
    }

    /// Validates the elements of `input` that no `prefixItems` at the same path
    /// has covered.
    pub fn validate_json(&self, key_to_input: Key, input: &Json, annotations: &mut Vec<Annotation>) -> (r: bool)
        ensures
            recorded(old(annotations)@, final(annotations)@,
                root_check(RootSchema::Items(*self), key_to_input.path(), *input, notes(old(annotations)@)), r),
        decreases self, 0nat,
    {
        let items = match input {
            Json::Array(array) => array,
            _ => {
                record(annotations, Annotation::ItemsError(ArrayError { key: key_to_input, kind: ArrayErrorKind::NotArray }));
                return false;
            },
        };
        let ghost path = key_to_input.path();
        let ghost n0 = notes(annotations@);
        let ghost mut done: Seq<Note> = Seq::empty();
        let start = prefix_len(annotations, &key_to_input);
        let mut success = true;
        let mut i: usize = start;
        assert(n0 + done =~= n0);
        proof {
            if start >= items@.len() {
                assert(items_check(self.schema, items@, start as int, path, n0) == (true, Seq::<Note>::empty()));
            }
        }
        while i < items.len()
            invariant
                start <= i,
                start >= items@.len() ==> i == start,
                start < items@.len() ==> i <= items@.len(),
                path == key_to_input.path(),
                notes(annotations@) == n0 + done,
            kept(old(annotations)@, annotations@),
                kept(old(annotations)@, annotations@),
                start == prefix_start(n0, path),
                ({
                    let (ok, rest) = items_check(self.schema, items@, i as int, path, n0 + done);
                    items_check(self.schema, items@, start as int, path, n0) == (success && ok, done + rest)
                }),
            decreases items@.len() - i,
        {
            let ghost cur = n0 + done;
            let ghost at = path.push(Segment::Index(i));
            let ghost (ok, out) = schema_check(self.schema, at, items@[i as int], cur);
            let ghost (rok, rest) = items_check(self.schema, items@, i as int + 1, path, cur + out);
            proof {
                assert(decreases_to!(*self => self.schema));
            }
            if !self.schema.validate_json(key_to_input.copy_of().push_idx(i), &items[i], annotations) {
                success = false;
            }
            proof {
                assert(cur + out =~= n0 + (done + out));
                assert(done + (out + rest) =~= (done + out) + rest);
                done = done + out;
            }
            i = i + 1;
        }
        assert(done + Seq::<Note>::empty() =~= done);
        success
    }
}

impl Contains {
    pub open spec fn schema_spec(&self) -> JsonSchema {
        self.schema
    }

    pub fn new(schema: JsonSchema) -> (r: Contains)
        ensures
            r.schema_spec() == schema,
    {
        Contains { schema }
    }

    /// Validates that some element of `input` satisfies the schema; every
    /// element is tried.
    pub fn validate_json(&self, key_to_input: Key, input: &Json, annotations: &mut Vec<Annotation>) -> (r: bool)
        ensures
            recorded(old(annotations)@, final(annotations)@,
                root_check(RootSchema::Contains(*self), key_to_input.path(), *input, notes(old(annotations)@)), r),
        decreases self, 0nat,
    {
        let values = match input {
            Json::Array(array) => array,
            _ => {
                record(annotations, Annotation::ItemsError(ArrayError { key: key_to_input, kind: ArrayErrorKind::NotArray }));
                return false;
            },
        };
        let ghost path = key_to_input.path();
        let ghost n0 = notes(annotations@);
        let ghost mut done: Seq<Note> = Seq::empty();
        let mut contains = false;
        let mut i: usize = 0;
        assert(n0 + done =~= n0);
        while i < values.len()
            invariant
                i <= values@.len(),
                path == key_to_input.path(),
                notes(annotations@) == n0 + done,
            kept(old(annotations)@, annotations@),
                kept(old(annotations)@, annotations@),
                ({
                    let (any, rest) = contains_check(self.schema, values@, i as int, path, n0 + done);
                    contains_check(self.schema, values@, 0, path, n0) == (contains || any, done + rest)
                }),
            decreases values@.len() - i,
        {
            let ghost cur = n0 + done;
            let ghost at = path.push(Segment::Index(i));
            let ghost (ok, out) = schema_check(self.schema, at, values@[i as int], cur);
            let ghost (rany, rest) = contains_check(self.schema, values@, i as int + 1, path, cur + out);
            proof {
                assert(decreases_to!(*self => self.schema));
            }
            if self.schema.validate_json(key_to_input.copy_of().push_idx(i), &values[i], annotations) {
                contains = true;
            }
            proof {
                assert(cur + out =~= n0 + (done + out));
                assert(done + (out + rest) =~= (done + out) + rest);
                done = done + out;
            }
            i = i + 1;
        }
        assert(done + Seq::<Note>::empty() =~= done);
        contains
    }
}


/// Validation is deterministic: two outcomes of validating the same instance
/// against the same schema agree in their success flag and in their
/// annotations, in order. (That validation terminates is shown by the
/// `decreases` clauses of the validator: each step goes to a strictly smaller
/// part of the schema tree, which owns its parts and so has no cycles.)
pub proof fn lemma_validate_deterministic(s: JsonSchema, inst: Json, a: ValidationResult, b: ValidationResult)
    requires
        validated(s, inst, a),
        validated(s, inst, b),
    ensures
        a.success == b.success,
        notes(a.annotations@) == notes(b.annotations@),
{
}

/// A property that is not required and whose member is absent succeeds, and
/// records exactly one annotation: that the member is missing.
pub proof fn lemma_optional_property_missing(p: Property, path: Seq<Segment>, m: Vec<(String, Json)>, prior: Seq<Note>)
    requires
        !p.required_spec(),
        member(m@, p.name_spec()) is None,
    ensures
        property_check(p, path, Json::Object(m), prior) == (true, seq![Note::Property(path, p.name_spec(), PropertyErrorKind::Missing)]),
{
}

/// When every schema of a `oneOf` with two or more schemas succeeds, the
/// keyword fails and records exactly one `OneOfMoreThanOne`, after the
/// annotations of its schemas; this holds when those schemas record no
/// `OneOfMoreThanOne` at the same path themselves.
pub proof fn lemma_one_of_all_succeed(v: Vec<JsonSchema>, path: Seq<Segment>, inst: Json, prior: Seq<Note>)
    requires
        v@.len() >= 2,
        count_check(v, 0, path, inst, prior).0 == v@.len(),
        forall|i: int| 0 <= i < count_check(v, 0, path, inst, prior).1.len()
            ==> #[trigger] count_check(v, 0, path, inst, prior).1[i] != Note::Logic(path, LogicErrorKind::OneOfMoreThanOne),
    ensures
        ({
            let out = count_check(v, 0, path, inst, prior).1;
            let (ok, notes) = logic_check(LogicApplier::OneOf(v), path, inst, prior);
            &&& !ok
            &&& notes == out.push(Note::Logic(path, LogicErrorKind::OneOfMoreThanOne))
            &&& forall|i: int| 0 <= i < notes.len() && notes[i] == Note::Logic(path, LogicErrorKind::OneOfMoreThanOne)
                ==> i == notes.len() - 1
        }),
{
    let out = count_check(v, 0, path, inst, prior).1;
    let notes = out.push(Note::Logic(path, LogicErrorKind::OneOfMoreThanOne));
    assert forall|i: int| 0 <= i < notes.len() && notes[i] == Note::Logic(path, LogicErrorKind::OneOfMoreThanOne)
        implies i == notes.len() - 1 by {
        if i < out.len() {
            assert(notes[i] == out[i]);
        }
    }
}

/// Right after a `prefixItems` of `n` schemas at `path`, an `items` at the same
/// path starts at index `n`: it skips the elements that `prefixItems` covered.
pub proof fn lemma_items_after_prefix(p: PrefixItems, it: Items, path: Seq<Segment>, arr: Vec<Json>, prior: Seq<Note>)
    ensures
        ({
            let (_, out) = root_check(RootSchema::PrefixItems(p), path, Json::Array(arr), prior);
            &&& out.last() == Note::PrefixItemsLen(path, p.schemas_spec().len() as usize)
            &&& prefix_start(prior + out, path) == p.schemas_spec().len()
            &&& root_check(RootSchema::Items(it), path, Json::Array(arr), prior + out)
                == items_check(it.schema_spec(), arr@, p.schemas_spec().len() as int, path, prior + out)
        }),
{
    let (_, out) = root_check(RootSchema::PrefixItems(p), path, Json::Array(arr), prior);
    let all = prior + out;
    assert(all.last() == out.last());
    assert(p.schemas_spec().len() <= usize::MAX) by {
        assert(p.schemas.len() == p.schemas@.len());
    }
}


/// The path an annotation is about.
pub open spec fn note_path(n: Note) -> Seq<Segment> {
    match n {
        Note::Logic(p, _) => p,
        Note::Property(p, _, _) => p,
        Note::Type(p, _) => p,
        Note::Enum(p) => p,
        Note::Array(p, _) => p,
        Note::Unequal(p) => p,
        Note::PrefixItemsLen(p, _) => p,
    }
}

/// `a` is `q` or a path below it.
pub open spec fn extends(a: Seq<Segment>, q: Seq<Segment>) -> bool {
    q.len() <= a.len() && forall|k: int| 0 <= k < q.len() ==> a[k] == q[k]
}

/// Every annotation of `out` is about `q` or a path below it.
pub open spec fn below(out: Seq<Note>, q: Seq<Segment>) -> bool {
    forall|i: int| 0 <= i < out.len() ==> extends(note_path(#[trigger] out[i]), q)
}

proof fn lemma_below_concat(a: Seq<Note>, b: Seq<Note>, q: Seq<Segment>)
    requires
        below(a, q),
        below(b, q),
    ensures
        below(a + b, q),
{
    assert forall|i: int| 0 <= i < (a + b).len() implies extends(note_path(#[trigger] (a + b)[i]), q) by {
        if i < a.len() {
            assert((a + b)[i] == a[i]);
        } else {
            assert((a + b)[i] == b[i - a.len()]);
        }
    }
}

proof fn lemma_below_deeper(a: Seq<Note>, q: Seq<Segment>, x: Segment)
    requires
        below(a, q.push(x)),
    ensures
        below(a, q),
        forall|i: int| 0 <= i < a.len() ==> note_path(#[trigger] a[i]).len() > q.len(),
{
    assert forall|i: int| 0 <= i < a.len() implies extends(note_path(#[trigger] a[i]), q) by {
        let p = note_path(a[i]);
        assert(extends(p, q.push(x)));
        assert forall|k: int| 0 <= k < q.len() implies p[k] == q[k] by {
            assert(q.push(x)[k] == q[k]);
        }
    }
}

proof fn lemma_schema_below(s: JsonSchema, q: Seq<Segment>, inst: Json, prior: Seq<Note>)
    ensures
        below(schema_check(s, q, inst, prior).1, q),
    decreases s, 0nat,
{
    lemma_roots_below(s.schemas, 0, q, inst, prior);
}

proof fn lemma_roots_below(l: Vec<RootSchema>, i: int, q: Seq<Segment>, inst: Json, prior: Seq<Note>)
    ensures
        below(roots_check(l, i, q, inst, prior).1, q),
    decreases l, l@.len() - i,
{
    if 0 <= i < l@.len() {
        let (ok, out) = root_check(l@[i], q, inst, prior);
        lemma_root_below(l@[i], q, inst, prior);
        lemma_roots_below(l, i + 1, q, inst, prior + out);
        lemma_below_concat(out, roots_check(l, i + 1, q, inst, prior + out).1, q);
    }
}

proof fn lemma_count_below(l: Vec<JsonSchema>, i: int, q: Seq<Segment>, inst: Json, prior: Seq<Note>)
    ensures
        below(count_check(l, i, q, inst, prior).1, q),
    decreases l, l@.len() - i,
{
    if 0 <= i < l@.len() {
        let (ok, out) = schema_check(l@[i], q, inst, prior);
        lemma_schema_below(l@[i], q, inst, prior);
        lemma_count_below(l, i + 1, q, inst, prior + out);
        lemma_below_concat(out, count_check(l, i + 1, q, inst, prior + out).1, q);
    }
}

proof fn lemma_props_below(l: Vec<Property>, i: int, q: Seq<Segment>, inst: Json, prior: Seq<Note>)
    ensures
        below(properties_check(l, i, q, inst, prior).1, q),
    decreases l, l@.len() - i,
{
    if 0 <= i < l@.len() {
        let (ok, out) = property_check(l@[i], q, inst, prior);
        lemma_prop_below(l@[i], q, inst, prior);
        lemma_props_below(l, i + 1, q, inst, prior + out);
        lemma_below_concat(out, properties_check(l, i + 1, q, inst, prior + out).1, q);
    }
}

proof fn lemma_prop_below(p: Property, q: Seq<Segment>, inst: Json, prior: Seq<Note>)
    ensures
        below(property_check(p, q, inst, prior).1, q),
    decreases p, 0nat,
{
    match inst {
        Json::Object(m) => match member(m@, p.name@) {
            Some(v) => {
                let at = q.push(Segment::Name(p.name@));
                lemma_count_below(p.schemas, 0, at, v, prior);
                let out = count_check(p.schemas, 0, at, v, prior).1;
                lemma_below_deeper(out, q, Segment::Name(p.name@));
                let last = seq![Note::Property(at, p.name@, PropertyErrorKind::Invalid)];
                assert(extends(at, q.push(Segment::Name(p.name@))));
                assert(below(last, q.push(Segment::Name(p.name@))));
                lemma_below_deeper(last, q, Segment::Name(p.name@));
                lemma_below_concat(out, last, q);
                assert(out.push(Note::Property(at, p.name@, PropertyErrorKind::Invalid)) == out + last);
            },
            None => {},
        },
        _ => {},
    }
}

/// Validation below the array elements records only annotations about paths
/// strictly below `q`.
proof fn lemma_prefix_below(l: Vec<JsonSchema>, i: int, arr: Seq<Json>, q: Seq<Segment>, prior: Seq<Note>)
    ensures
        below(prefix_check(l, i, arr, q, prior).1, q),
        forall|k: int| 0 <= k < prefix_check(l, i, arr, q, prior).1.len()
            ==> note_path(#[trigger] prefix_check(l, i, arr, q, prior).1[k]).len() > q.len(),
    decreases l, l@.len() - i,
{
    if 0 <= i < l@.len() {
        let x = Segment::Index(i as usize);
        let at = q.push(x);
        let (ok, out) = if i < arr.len() {
            schema_check(l@[i], at, arr[i], prior)
        } else {
            (false, seq![Note::Array(at, ArrayErrorKind::PrefixItemMissing)])
        };
        if i < arr.len() {
            lemma_schema_below(l@[i], at, arr[i], prior);
        } else {
            assert(extends(at, at));
            assert(below(out, at));
        }
        lemma_below_deeper(out, q, x);
        lemma_prefix_below(l, i + 1, arr, q, prior + out);
        let rest = prefix_check(l, i + 1, arr, q, prior + out).1;
        lemma_below_concat(out, rest, q);
        let all = out + rest;
        assert forall|k: int| 0 <= k < all.len() implies note_path(#[trigger] all[k]).len() > q.len() by {
            if k < out.len() {
                assert(all[k] == out[k]);
            } else {
                assert(all[k] == rest[k - out.len()]);
            }
        }
    }
}

proof fn lemma_items_below(s: JsonSchema, arr: Seq<Json>, i: int, q: Seq<Segment>, prior: Seq<Note>)
    ensures
        below(items_check(s, arr, i, q, prior).1, q),
    decreases s, arr.len() - i,
{
    if 0 <= i < arr.len() {
        let x = Segment::Index(i as usize);
        let (ok, out) = schema_check(s, q.push(x), arr[i], prior);
        lemma_schema_below(s, q.push(x), arr[i], prior);
        lemma_below_deeper(out, q, x);
        lemma_items_below(s, arr, i + 1, q, prior + out);
        lemma_below_concat(out, items_check(s, arr, i + 1, q, prior + out).1, q);
    }
}

proof fn lemma_contains_below(s: JsonSchema, arr: Seq<Json>, i: int, q: Seq<Segment>, prior: Seq<Note>)
    ensures
        below(contains_check(s, arr, i, q, prior).1, q),
    decreases s, arr.len() - i,
{
    if 0 <= i < arr.len() {
        let x = Segment::Index(i as usize);
        let (ok, out) = schema_check(s, q.push(x), arr[i], prior);
        lemma_schema_below(s, q.push(x), arr[i], prior);
        lemma_below_deeper(out, q, x);
        lemma_contains_below(s, arr, i + 1, q, prior + out);
        lemma_below_concat(out, contains_check(s, arr, i + 1, q, prior + out).1, q);
    }
}

proof fn lemma_logic_below(l: LogicApplier, q: Seq<Segment>, inst: Json, prior: Seq<Note>)
    ensures
        below(logic_check(l, q, inst, prior).1, q),
    decreases l, 0nat,
{
    match l {
        LogicApplier::Not(s) => {
            lemma_schema_below(s, q, inst, prior);
        },
        LogicApplier::AllOf(v) => {
            lemma_count_below(v, 0, q, inst, prior);
        },
        LogicApplier::AnyOf(v) => {
            lemma_count_below(v, 0, q, inst, prior);
        },
        LogicApplier::OneOf(v) => {
            lemma_count_below(v, 0, q, inst, prior);
        },
    }
    let out = logic_check(l, q, inst, prior).1;
    assert forall|i: int| 0 <= i < out.len() implies extends(note_path(#[trigger] out[i]), q) by {
        match l {
            LogicApplier::Not(s) => {
                let o = schema_check(s, q, inst, prior).1;
                if i < o.len() {
                    assert(out[i] == o[i]);
                }
            },
            LogicApplier::AllOf(v) => {
                let o = count_check(v, 0, q, inst, prior).1;
                if i < o.len() {
                    assert(out[i] == o[i]);
                }
            },
            LogicApplier::AnyOf(v) => {
                let o = count_check(v, 0, q, inst, prior).1;
                if i < o.len() {
                    assert(out[i] == o[i]);
                }
            },
            LogicApplier::OneOf(v) => {
                let o = count_check(v, 0, q, inst, prior).1;
                if i < o.len() {
                    assert(out[i] == o[i]);
                }
            },
        }
    }
}

proof fn lemma_root_below(r: RootSchema, q: Seq<Segment>, inst: Json, prior: Seq<Note>)
    ensures
        below(root_check(r, q, inst, prior).1, q),
    decreases r, 0nat,
{
    match r {
        RootSchema::Ref(b) => lemma_root_below(*b, q, inst, prior),
        RootSchema::Logic(l) => lemma_logic_below(l, q, inst, prior),
        RootSchema::Properties(ps) => lemma_props_below(ps, 0, q, inst, prior),
        RootSchema::Items(it) => match inst {
            Json::Array(arr) => lemma_items_below(it.schema, arr@, prefix_start(prior, q) as int, q, prior),
            _ => {},
        },
        RootSchema::PrefixItems(p) => match inst {
            Json::Array(arr) => {
                lemma_prefix_below(p.schemas, 0, arr@, q, prior);
                let o = prefix_check(p.schemas, 0, arr@, q, prior).1;
                let out = o.push(Note::PrefixItemsLen(q, p.schemas@.len() as usize));
                assert forall|i: int| 0 <= i < out.len() implies extends(note_path(#[trigger] out[i]), q) by {
                    if i < o.len() {
                        assert(out[i] == o[i]);
                    }
                }
            },
            _ => {},
        },
        RootSchema::Contains(c) => match inst {
            Json::Array(arr) => lemma_contains_below(c.schema, arr@, 0, q, prior),
            _ => {},
        },
        _ => {},
    }
}

/// A `prefixItems` of `n` schemas at `path`, on an array, records exactly one
/// `PrefixItemsLen` about `path`, and it carries `n`; the annotations of its
/// schemas are all about the elements, below `path`.
pub proof fn lemma_prefix_items_len_once(p: PrefixItems, path: Seq<Segment>, arr: Vec<Json>, prior: Seq<Note>)
    ensures
        ({
            let out = root_check(RootSchema::PrefixItems(p), path, Json::Array(arr), prior).1;
            &&& out.len() > 0
            &&& out.last() == Note::PrefixItemsLen(path, p.schemas_spec().len() as usize)
            &&& forall|i: int| 0 <= i < out.len() && (#[trigger] out[i]) is PrefixItemsLen && note_path(out[i]) == path
                ==> i == out.len() - 1
        }),
{
    lemma_prefix_below(p.schemas, 0, arr@, path, prior);
    let o = prefix_check(p.schemas, 0, arr@, path, prior).1;
    let out = root_check(RootSchema::PrefixItems(p), path, Json::Array(arr), prior).1;
    assert(out == o.push(Note::PrefixItemsLen(path, p.schemas@.len() as usize)));
    assert forall|i: int| 0 <= i < out.len() && (#[trigger] out[i]) is PrefixItemsLen && note_path(out[i]) == path
        implies i == out.len() - 1 by {
        if i < o.len() {
            assert(out[i] == o[i]);
            assert(note_path(o[i]).len() > path.len());
        }
    }
}

} // verus!
