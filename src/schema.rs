use vstd::prelude::*;
use crate::pattern::{CompiledPattern, regex_valid, regex_match};
use crate::value::{
    Json, Value, arr_view, obj_view, obj_get, json_eq, seq_contains_eq, values_equal, contains_value,
    find_entry, lemma_find_key_facts, lemma_view_parts,
};

verus! {

/// The kind of value a schema admits.
#[derive(Clone, Copy, Debug, PartialEq, Eq, Structural)]
pub enum SchemaType {
    Object,
    Array,
    String,
    Number,
    Boolean,
    Null,
}

/// A declarative description of the values allowed at a path.
#[derive(Debug)]
pub struct Schema {
    pub schema_type: SchemaType,
    pub properties: Option<Vec<(String, Schema)>>,
    pub required: Option<Vec<String>>,
    pub min_length: Option<usize>,
    pub max_length: Option<usize>,
    pub pattern: Option<String>,
    pub minimum: Option<Value>,
    pub maximum: Option<Value>,
    pub exclusive_minimum: Option<Value>,
    pub exclusive_maximum: Option<Value>,
    pub items: Option<Box<Schema>>,
    pub min_items: Option<usize>,
    pub max_items: Option<usize>,
    pub unique_items: Option<bool>,
    pub enum_values: Option<Vec<Value>>,
}

/// Why a value does not meet a schema.
#[derive(Debug)]
pub enum ValidationError {
    TypeMismatch { expected: SchemaType, found: String },
    MissingRequired(String),
    MinLength(usize),
    MaxLength(usize),
    PatternMismatch(String),
    Minimum(i128),
    Maximum(i128),
    MinItems(usize),
    MaxItems(usize),
    UniqueItems,
    EnumMismatch,
    PropertyError(String, Box<ValidationError>),
    ItemError(usize, Box<ValidationError>),
}

/// The model of a validation error.
pub enum Fault {
    TypeMismatch(SchemaType, Seq<char>),
    MissingRequired(Seq<char>),
    MinLength(nat),
    MaxLength(nat),
    PatternMismatch(Seq<char>),
    Minimum(int),
    Maximum(int),
    MinItems(nat),
    MaxItems(nat),
    UniqueItems,
    EnumMismatch,
    PropertyError(Seq<char>, Box<Fault>),
    ItemError(nat, Box<Fault>),
}

impl View for ValidationError {
    type V = Fault;

    open spec fn view(&self) -> Fault
        decreases self,
    {
        match self {
            ValidationError::TypeMismatch { expected, found } => Fault::TypeMismatch(*expected, found@),
            ValidationError::MissingRequired(s) => Fault::MissingRequired(s@),
            ValidationError::MinLength(n) => Fault::MinLength(*n as nat),
            ValidationError::MaxLength(n) => Fault::MaxLength(*n as nat),
            ValidationError::PatternMismatch(s) => Fault::PatternMismatch(s@),
            ValidationError::Minimum(n) => Fault::Minimum(*n as int),
            ValidationError::Maximum(n) => Fault::Maximum(*n as int),
            ValidationError::MinItems(n) => Fault::MinItems(*n as nat),
            ValidationError::MaxItems(n) => Fault::MaxItems(*n as nat),
            ValidationError::UniqueItems => Fault::UniqueItems,
            ValidationError::EnumMismatch => Fault::EnumMismatch,
            ValidationError::PropertyError(s, e) => Fault::PropertyError(s@, Box::new((**e).view())),
            ValidationError::ItemError(i, e) => Fault::ItemError(*i as nat, Box::new((**e).view())),
        }
    }
}

pub open spec fn type_matches(t: SchemaType, j: Json) -> bool {
    match t {
        SchemaType::Object => j is Obj,
        SchemaType::Array => j is Arr,
        SchemaType::String => j is Str,
        SchemaType::Number => j is Int || j is Float,
        SchemaType::Boolean => j is Bool,
        SchemaType::Null => j is Null,
    }
}

pub open spec fn kind_name(j: Json) -> Seq<char> {
    match j {
        Json::Null => "null"@,
        Json::Bool(_) => "boolean"@,
        Json::Int(_) | Json::Float(_) => "number"@,
        Json::Str(_) => "string"@,
        Json::Arr(_) => "array"@,
        Json::Obj(_) => "object"@,
    }
}

/// Bytes that UTF-8 takes for one character.
pub open spec fn char_width(c: char) -> int {
    if (c as u32) < 0x80 {
        1
    } else if (c as u32) < 0x800 {
        2
    } else if (c as u32) < 0x10000 {
        3
    } else {
        4
    }
}

/// Length in bytes of the UTF-8 encoding of `s`.
pub open spec fn utf8_len(s: Seq<char>) -> int
    decreases s.len(),
{
    if s.len() == 0 {
        0
    } else {
        utf8_len(s.drop_last()) + char_width(s.last())
    }
}

/// Whether two positions of `a` hold equal values.
pub open spec fn has_duplicate(a: Seq<Json>) -> bool {
    exists|i: int, j: int| 0 <= i < j < a.len() && json_eq(#[trigger] a[i], #[trigger] a[j])
}

/// Integer bound of a schema. Floating point is not held in this verified code, so
/// a float bound, or a float value, is not checked against the bounds.
pub open spec fn int_bound(b: Option<Value>) -> Option<int> {
    match b {
        Some(Value::Int(n)) => Some(n as int),
        _ => None,
    }
}

pub open spec fn string_fault(t: Seq<char>, s: Schema) -> Option<Fault> {
    if s.min_length is Some && utf8_len(t) < s.min_length->0 {
        Some(Fault::MinLength(s.min_length->0 as nat))
    } else if s.max_length is Some && utf8_len(t) > s.max_length->0 {
        Some(Fault::MaxLength(s.max_length->0 as nat))
    } else if s.pattern is Some && !(regex_valid(s.pattern->0@) && regex_match(s.pattern->0@, t)) {
        Some(Fault::PatternMismatch(s.pattern->0@))
    } else {
        None
    }
}

pub open spec fn number_fault(n: int, s: Schema) -> Option<Fault> {
    if int_bound(s.minimum) is Some && n < int_bound(s.minimum)->0 {
        Some(Fault::Minimum(int_bound(s.minimum)->0))
    } else if int_bound(s.maximum) is Some && n > int_bound(s.maximum)->0 {
        Some(Fault::Maximum(int_bound(s.maximum)->0))
    } else if int_bound(s.exclusive_minimum) is Some && n <= int_bound(s.exclusive_minimum)->0 {
        Some(Fault::Minimum(int_bound(s.exclusive_minimum)->0))
    } else if int_bound(s.exclusive_maximum) is Some && n >= int_bound(s.exclusive_maximum)->0 {
        Some(Fault::Maximum(int_bound(s.exclusive_maximum)->0))
    } else {
        None
    }
}

/// The first of `names[0..n]` that `m` lacks.
pub open spec fn missing_required(m: Seq<(Seq<char>, Json)>, names: Seq<Seq<char>>, n: int) -> Option<Seq<char>>
    decreases n,
{
    if n <= 0 || n > names.len() {
        None
    } else if missing_required(m, names, n - 1) is Some {
        missing_required(m, names, n - 1)
    } else if obj_get(m, names[n - 1]) is None {
        Some(names[n - 1])
    } else {
        None
    }
}

/// The fault of the first of `a[0..n]` that fails the item schema of `s`.
pub open spec fn items_fault(a: Seq<Json>, s: Schema, n: int) -> Option<Fault>
    decreases s, 0int, n,
{
    if n <= 0 || n > a.len() || s.items is None {
        None
    } else if items_fault(a, s, n - 1) is Some {
        items_fault(a, s, n - 1)
    } else {
        match validate_spec(a[n - 1], *s.items->0) {
            Some(f) => Some(Fault::ItemError((n - 1) as nat, Box::new(f))),
            None => None,
        }
    }
}

/// The fault of the first of the first `n` property schemas of `s` whose property
/// `m` holds and fails it.
pub open spec fn props_fault(m: Seq<(Seq<char>, Json)>, s: Schema, n: int) -> Option<Fault>
    decreases s, 0int, n,
{
    if s.properties is None || n <= 0 || n > s.properties->0@.len() {
        None
    } else if props_fault(m, s, n - 1) is Some {
        props_fault(m, s, n - 1)
    } else {
        let name = s.properties->0@[n - 1].0@;
        match obj_get(m, name) {
            Some(v) => match validate_spec(v, s.properties->0@[n - 1].1) {
                Some(f) => Some(Fault::PropertyError(name, Box::new(f))),
                None => None,
            },
            None => None,
        }
    }
}

/// The fault that validating `j` against `s` reports, or `None` when `j` meets `s`.
pub open spec fn validate_spec(j: Json, s: Schema) -> Option<Fault>
    decreases s, 1int, 0int,
{
    if !type_matches(s.schema_type, j) {
        Some(Fault::TypeMismatch(s.schema_type, kind_name(j)))
    } else if s.enum_values is Some && !seq_contains_eq(arr_view(s.enum_values->0@), j) {
        Some(Fault::EnumMismatch)
    } else {
        match j {
            Json::Str(t) => string_fault(t, s),
            Json::Int(n) => number_fault(n, s),
            Json::Arr(a) => if s.min_items is Some && a.len() < s.min_items->0 {
                Some(Fault::MinItems(s.min_items->0 as nat))
            } else if s.max_items is Some && a.len() > s.max_items->0 {
                Some(Fault::MaxItems(s.max_items->0 as nat))
            } else if s.unique_items == Some(true) && has_duplicate(a) {
                Some(Fault::UniqueItems)
            } else {
                items_fault(a, s, a.len() as int)
            },
            Json::Obj(m) => if s.required is Some && missing_required(
                m,
                s.required->0@.map_values(|r: String| r@),
                s.required->0@.len() as int,
            ) is Some {
                Some(
                    Fault::MissingRequired(
                        missing_required(
                            m,
                            s.required->0@.map_values(|r: String| r@),
                            s.required->0@.len() as int,
                        )->0,
                    ),
                )
            } else {
                props_fault(m, s, if s.properties is Some { s.properties->0@.len() as int } else { 0 })
            },
            _ => None,
        }
    }
}

proof fn lemma_items_fault_stable(a: Seq<Json>, s: Schema, k: int, n: int)
    requires
        0 <= k <= n <= a.len(),
        items_fault(a, s, k) is Some,
    ensures
        items_fault(a, s, n) == items_fault(a, s, k),
    decreases n - k,
{
    if n > k {
        lemma_items_fault_stable(a, s, k, n - 1);
    }
}

proof fn lemma_props_fault_stable(m: Seq<(Seq<char>, Json)>, s: Schema, k: int, n: int)
    requires
        s.properties is Some,
        0 <= k <= n <= s.properties->0@.len(),
        props_fault(m, s, k) is Some,
    ensures
        props_fault(m, s, n) == props_fault(m, s, k),
    decreases n - k,
{
    if n > k {
        lemma_props_fault_stable(m, s, k, n - 1);
    }
}

proof fn lemma_missing_stable(m: Seq<(Seq<char>, Json)>, names: Seq<Seq<char>>, k: int, n: int)
    requires
        0 <= k <= n <= names.len(),
        missing_required(m, names, k) is Some,
    ensures
        missing_required(m, names, n) == missing_required(m, names, k),
    decreases n - k,
{
    if n > k {
        lemma_missing_stable(m, names, k, n - 1);
    }
}

/// Bytes that `s` takes in UTF-8.
pub fn byte_len(s: &str) -> (r: u128)
    ensures
        r as int == utf8_len(s@),
{
    let n = s.unicode_len();
    let mut i: usize = 0;
    let mut acc: u128 = 0;
    while i < n
        invariant
            n == s@.len(),
            0 <= i <= n,
            acc as int == utf8_len(s@.subrange(0, i as int)),
            acc <= 4 * i,
        decreases n - i,
    {
        let c = s.get_char(i);
        let w: u128 = if (c as u32) < 0x80 {
            1
        } else if (c as u32) < 0x800 {
            2
        } else if (c as u32) < 0x10000 {
            3
        } else {
            4
        };
        proof {
            assert(s@.subrange(0, i as int + 1).drop_last() =~= s@.subrange(0, i as int));
        }
        acc = acc + w;
        i = i + 1;
    }
    proof {
        assert(s@.subrange(0, n as int) =~= s@);
    }
    acc
}

/// Whether two positions of `a` hold equal values.
pub fn find_duplicate(a: &Vec<Value>) -> (r: bool)
    ensures
        r == has_duplicate(arr_view(a@)),
{
    let ghost v = arr_view(a@);
    let mut j: usize = 0;
    while j < a.len()
        invariant
            v == arr_view(a@),
            0 <= j <= a@.len(),
            forall|x: int, y: int| 0 <= x < y < j ==> !json_eq(#[trigger] v[x], #[trigger] v[y]),
        decreases a@.len() - j,
    {
        let mut i: usize = 0;
        while i < j
            invariant
                v == arr_view(a@),
                0 <= i <= j < a@.len(),
                forall|x: int, y: int| 0 <= x < y < j ==> !json_eq(#[trigger] v[x], #[trigger] v[y]),
                forall|x: int| 0 <= x < i ==> !json_eq(#[trigger] v[x], v[j as int]),
            decreases j - i,
        {
            if values_equal(&a[i], &a[j]) {
                assert(json_eq(v[i as int], v[j as int]));
                return true;
            }
            i = i + 1;
        }
        j = j + 1;
    }
    false
}

fn kind_name_of(v: &Value) -> (r: String)
    ensures
        r@ == kind_name(v@),
{
    proof {
        lemma_view_parts(v);
    }
    match v {
        Value::Null => String::from_str("null"),
        Value::Bool(_) => String::from_str("boolean"),
        Value::Int(_) | Value::Float(_) => String::from_str("number"),
        Value::Str(_) => String::from_str("string"),
        Value::Array(_) => String::from_str("array"),
        Value::Object(_) => String::from_str("object"),
    }
}

fn kind_matches(t: SchemaType, v: &Value) -> (r: bool)
    ensures
        r == type_matches(t, v@),
{
    proof {
        lemma_view_parts(v);
    }
    match (t, v) {
        (SchemaType::Object, Value::Object(_)) => true,
        (SchemaType::Array, Value::Array(_)) => true,
        (SchemaType::String, Value::Str(_)) => true,
        (SchemaType::Number, Value::Int(_)) => true,
        (SchemaType::Number, Value::Float(_)) => true,
        (SchemaType::Boolean, Value::Bool(_)) => true,
        (SchemaType::Null, Value::Null) => true,
        _ => false,
    }
}

fn check_string(t: &String, schema: &Schema) -> (r: Result<(), ValidationError>)
    ensures
        match string_fault(t@, *schema) {
            None => r is Ok,
            Some(f) => r is Err && r->Err_0@ == f,
        },
{
    let len = byte_len(t.as_str());
    if let Some(min) = schema.min_length {
        if len < min as u128 {
            return Err(ValidationError::MinLength(min));
        }
    }
    if let Some(max) = schema.max_length {
        if len > max as u128 {
            return Err(ValidationError::MaxLength(max));
        }
    }
    if let Some(p) = &schema.pattern {
        match CompiledPattern::compile(p) {
            None => {
                return Err(ValidationError::PatternMismatch(p.clone()));
            },
            Some(re) => {
                if !re.is_match(t.as_str()) {
                    return Err(ValidationError::PatternMismatch(p.clone()));
                }
            },
        }
    }
    Ok(())
}

fn bound_of(b: &Option<Value>) -> (r: Option<i128>)
    ensures
        match int_bound(*b) {
            Some(n) => r is Some && r->0 as int == n,
            None => r is None,
        },
{
    match b {
        Some(Value::Int(n)) => Some(*n),
        _ => None,
    }
}

fn check_number(n: i128, schema: &Schema) -> (r: Result<(), ValidationError>)
    ensures
        match number_fault(n as int, *schema) {
            None => r is Ok,
            Some(f) => r is Err && r->Err_0@ == f,
        },
{
    if let Some(m) = bound_of(&schema.minimum) {
        if n < m {
            return Err(ValidationError::Minimum(m));
        }
    }
    if let Some(m) = bound_of(&schema.maximum) {
        if n > m {
            return Err(ValidationError::Maximum(m));
        }
    }
    if let Some(m) = bound_of(&schema.exclusive_minimum) {
        if n <= m {
            return Err(ValidationError::Minimum(m));
        }
    }
    if let Some(m) = bound_of(&schema.exclusive_maximum) {
        if n >= m {
            return Err(ValidationError::Maximum(m));
        }
    }
    Ok(())
}

/// Checks `value` against `schema`: its kind, the allowed values, then the
/// constraints for its kind, reporting the first one that fails.
pub fn validate(value: &Value, schema: &Schema) -> (r: Result<(), ValidationError>)
    ensures
        match validate_spec(value@, *schema) {
            None => r is Ok,
            Some(f) => r is Err && r->Err_0@ == f,
        },
    decreases *schema,
{
    proof {
        lemma_view_parts(value);
    }
    if !kind_matches(schema.schema_type, value) {
        return Err(ValidationError::TypeMismatch { expected: schema.schema_type, found: kind_name_of(value) });
    }
    if let Some(allowed) = &schema.enum_values {
        if !contains_value(allowed, value) {
            return Err(ValidationError::EnumMismatch);
        }
    }
    match value {
        Value::Str(t) => check_string(t, schema),
        Value::Int(n) => check_number(*n, schema),
        Value::Array(a) => {
            if let Some(min) = schema.min_items {
                if a.len() < min {
                    return Err(ValidationError::MinItems(min));
                }
            }
            if let Some(max) = schema.max_items {
                if a.len() > max {
                    return Err(ValidationError::MaxItems(max));
                }
            }
            if let Some(true) = schema.unique_items {
                if find_duplicate(a) {
                    return Err(ValidationError::UniqueItems);
                }
            }
            let ghost av = arr_view(a@);
            match &schema.items {
                None => Ok(()),
                Some(item_schema) => {
                    let mut i: usize = 0;
                    while i < a.len()
                        invariant
                            value@ == Json::Arr(av),
                            type_matches(schema.schema_type, value@),
                            !(schema.enum_values is Some && !seq_contains_eq(arr_view(schema.enum_values->0@), value@)),
                            validate_spec(value@, *schema) == items_fault(av, *schema, av.len() as int),
                            av == arr_view(a@),
                            schema.items == Some(*item_schema),
                            0 <= i <= a@.len(),
                            items_fault(av, *schema, i as int) is None,
                        decreases a@.len() - i,
                    {
                        proof {
                            assert(decreases_to!(*schema => schema.items));
                            assert(decreases_to!(schema.items => schema.items->0));
                            assert(av[i as int] == a@[i as int]@);
                        }
                        match validate(&a[i], item_schema) {
                            Ok(()) => {},
                            Err(e) => {
                                proof {
                                    assert(validate_spec(av[i as int], *schema.items->0) == Some(e@));
                                    assert(items_fault(av, *schema, i as int + 1) == Some(
                                        Fault::ItemError(i as nat, Box::new(e@)),
                                    ));
                                    lemma_items_fault_stable(av, *schema, i as int + 1, a@.len() as int);
                                }
                                return Err(ValidationError::ItemError(i, Box::new(e)));
                            },
                        }
                        i = i + 1;
                    }
                    Ok(())
                },
            }
        },
        Value::Object(m) => {
            let ghost mv = obj_view(m@);
            if let Some(required) = &schema.required {
                let ghost names = required@.map_values(|r: String| r@);
                let mut i: usize = 0;
                while i < required.len()
                    invariant
                        value@ == Json::Obj(mv),
                            type_matches(schema.schema_type, value@),
                            !(schema.enum_values is Some && !seq_contains_eq(arr_view(schema.enum_values->0@), value@)),
                            mv == obj_view(m@),
                        schema.required == Some(*required),
                        names == required@.map_values(|r: String| r@),
                        0 <= i <= required@.len(),
                        missing_required(mv, names, i as int) is None,
                    decreases required@.len() - i,
                {
                    proof {
                        lemma_find_key_facts(mv, names[i as int]);
                    }
                    if find_entry(m, &required[i]).is_none() {
                        proof {
                            assert(missing_required(mv, names, i as int + 1) == Some(names[i as int]));
                            lemma_missing_stable(mv, names, i as int + 1, required@.len() as int);
                        }
                        return Err(ValidationError::MissingRequired(required[i].clone()));
                    }
                    i = i + 1;
                }
            }
            match &schema.properties {
                None => Ok(()),
                Some(props) => {
                    let mut i: usize = 0;
                    while i < props.len()
                        invariant
                            value@ == Json::Obj(mv),
                            type_matches(schema.schema_type, value@),
                            !(schema.enum_values is Some && !seq_contains_eq(arr_view(schema.enum_values->0@), value@)),
                            (schema.required is Some ==> missing_required(
                                mv,
                                schema.required->0@.map_values(|r: String| r@),
                                schema.required->0@.len() as int,
                            ) is None),
                            mv == obj_view(m@),
                            schema.properties == Some(*props),
                            0 <= i <= props@.len(),
                            props_fault(mv, *schema, i as int) is None,
                        decreases props@.len() - i,
                    {
                        proof {
                            lemma_find_key_facts(mv, props@[i as int].0@);
                            assert(decreases_to!(*schema => schema.properties));
                            assert(decreases_to!(schema.properties => schema.properties->0));
                            assert(decreases_to!(schema.properties->0 => schema.properties->0@));
                            assert(decreases_to!(schema.properties->0@ => schema.properties->0@[i as int]));
                            assert(decreases_to!(schema.properties->0@[i as int] => schema.properties->0@[i as int].1));
                        }
                        match find_entry(m, &props[i].0) {
                            None => {},
                            Some(p) => {
                                match validate(&m[p].1, &props[i].1) {
                                    Ok(()) => {},
                                    Err(e) => {
                                        proof {
                                            assert(obj_get(mv, props@[i as int].0@) == Some(m@[p as int].1@));
                                            assert(validate_spec(m@[p as int].1@, props@[i as int].1) == Some(e@));
                                            assert(props_fault(mv, *schema, i as int + 1) == Some(
                                                Fault::PropertyError(props@[i as int].0@, Box::new(e@)),
                                            ));
                                            lemma_props_fault_stable(mv, *schema, i as int + 1, props@.len() as int);
                                        }
                                        return Err(ValidationError::PropertyError(props[i].0.clone(), Box::new(e)));
                                    },
                                }
                            },
                        }
                        i = i + 1;
                    }
                    Ok(())
                },
            }
        },
        _ => Ok(()),
    }
}

} // verus!
