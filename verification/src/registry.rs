//! The function registry: what the front end declares about each invokable
//! function, kept as explicit data.  Each entry maps a function identifier
//! to its argument descriptors — name, declared source type, and the JSON
//! shape the value must take — and its output type, so synthesis can
//! validate a request's shapes before generating any code.
use vstd::prelude::*;
use crate::errors::MiniModalError;
use crate::json::JVal;
use crate::json::JsonValue;
use crate::json::jfields_of;
use crate::json::jvals_of;
use crate::json::lemma_jfields_of_index;
use crate::json::lemma_jfields_of_len;
use crate::json::lemma_jvals_of_index;
use crate::json::lemma_jvals_of_len;
use crate::text::str_eq;
use crate::utils::jlookup;
use crate::utils::obj_lookup;

verus! {

broadcast use lemma_jvals_of_len, lemma_jvals_of_index, lemma_jfields_of_len, lemma_jfields_of_index;

/// The JSON shape an argument value must take: a primitive, a list of one
/// shape, or a record of named shapes.
#[derive(Debug)]
pub enum TypeSchema {
    Null,
    Bool,
    Int,
    Str,
    List(Box<TypeSchema>),
    Record(Vec<(String, TypeSchema)>),
}

/// Whether a document takes a shape.  A record accepts extra members; each
/// declared member must be present and of its declared shape.
pub open spec fn matches_schema(j: JVal, s: TypeSchema) -> bool
    decreases s, 0int, 0int,
{
    match s {
        TypeSchema::Null => j is Null,
        TypeSchema::Bool => j is Bool,
        TypeSchema::Int => j is Int,
        TypeSchema::Str => j is Str,
        TypeSchema::List(t) => j is Arr && all_match(j->Arr_0, *t),
        TypeSchema::Record(fields) => j is Obj && members_match(j->Obj_0, fields@),
    }
}

/// Every element of a list takes the shape.
pub open spec fn all_match(elems: Seq<JVal>, t: TypeSchema) -> bool
    decreases t, 1int, elems.len(),
{
    if elems.len() == 0 {
        true
    } else {
        matches_schema(elems[0], t) && all_match(elems.drop_first(), t)
    }
}

/// Every declared member is present and takes its declared shape.
pub open spec fn members_match(
    obj: Seq<(Seq<char>, JVal)>,
    declared: Seq<(String, TypeSchema)>,
) -> bool
    decreases declared, 1int, 0int,
{
    if declared.len() == 0 {
        true
    } else {
        &&& jlookup(obj, declared[0].0@) is Some
        &&& matches_schema(jlookup(obj, declared[0].0@)->Some_0, declared[0].1)
        &&& members_match(obj, declared.drop_first())
    }
}

/// Whether a document takes a shape, exactly as `matches_schema` describes.
pub fn check_schema(v: &JsonValue, s: &TypeSchema) -> (r: bool)
    ensures
        r == matches_schema(v@, *s),
    decreases *s, 0int, 0int,
{
    match s {
        TypeSchema::Null => matches!(v, JsonValue::Null),
        TypeSchema::Bool => matches!(v, JsonValue::Bool(_)),
        TypeSchema::Int => matches!(v, JsonValue::Int(_)),
        TypeSchema::Str => matches!(v, JsonValue::Str(_)),
        TypeSchema::List(t) => {
            match v {
                JsonValue::Arr(elems) => {
                    proof {
                        assert(jvals_of(elems@).skip(0) =~= jvals_of(elems@));
                    }
                    check_elems(elems, t, 0)
                },
                _ => false,
            }
        },
        TypeSchema::Record(fields) => {
            match v {
                JsonValue::Obj(members) => {
                    proof {
                        assert(fields@.skip(0) =~= fields@);
                    }
                    check_members(members, fields, 0)
                },
                _ => false,
            }
        },
    }
}

/// Whether the elements `elems[k..]` all take the shape.
fn check_elems(elems: &Vec<JsonValue>, t: &Box<TypeSchema>, k: usize) -> (r: bool)
    requires
        k <= elems@.len(),
    ensures
        r == all_match(jvals_of(elems@).skip(k as int), **t),
    decreases **t, 1int, elems@.len() - k,
{
    let ghost js = jvals_of(elems@);
    if k == elems.len() {
        assert(js.skip(k as int) =~= Seq::<JVal>::empty());
        return true;
    }
    proof {
        assert(js.skip(k as int)[0] == js[k as int]);
        assert(js.skip(k as int).drop_first() =~= js.skip(k as int + 1));
    }
    if !check_schema(&elems[k], t) {
        return false;
    }
    check_elems(elems, t, k + 1)
}

/// Whether the declared members `declared[k..]` are all present with their
/// shapes.
fn check_members(
    members: &Vec<(String, JsonValue)>,
    declared: &Vec<(String, TypeSchema)>,
    k: usize,
) -> (r: bool)
    requires
        k <= declared@.len(),
    ensures
        r == members_match(jfields_of(members@), declared@.skip(k as int)),
    decreases *declared, 1int, declared@.len() - k,
{
    let ghost ds = declared@;
    if k == declared.len() {
        assert(ds.skip(k as int) =~= Seq::<(String, TypeSchema)>::empty());
        return true;
    }
    proof {
        assert(ds.skip(k as int)[0] == ds[k as int]);
        assert(ds.skip(k as int).drop_first() =~= ds.skip(k as int + 1));
    }
    let name = &declared[k].0;
    match obj_lookup(members, name.as_str()) {
        None => false,
        Some(value) => {
            if !check_schema(value, &declared[k].1) {
                return false;
            }
            check_members(members, declared, k + 1)
        },
    }
}

/// What the front end declares about one invokable function.
#[derive(Debug)]
pub struct FunctionSchema {
    pub function_id: String,
    /// one per formal parameter, in order: name, declared source type, and
    /// the JSON shape its value must take
    pub arg_descriptors: Vec<(String, String, TypeSchema)>,
    pub output_type_name: String,
}

/// The registry populated at process start: every function a caller may
/// invoke, under its identifier.
#[derive(Debug)]
pub struct FunctionRegistry {
    pub entries: Vec<FunctionSchema>,
}

impl FunctionRegistry {
    /// An empty registry.
    pub fn new() -> (r: FunctionRegistry)
        ensures
            r.entries@.len() == 0,
    {
        FunctionRegistry { entries: Vec::new() }
    }

    /// Declares one more function, after those already declared.
    pub fn register(&mut self, schema: FunctionSchema)
        ensures
            final(self).entries@ == old(self).entries@.push(schema),
    {
        self.entries.push(schema);
    }

    /// The first entry declared under the identifier, if any.
    pub fn lookup(&self, function_id: &str) -> (r: Option<&FunctionSchema>)
        ensures
            match r {
                Some(f) => exists|i: int|
                    {
                        &&& 0 <= i < self.entries@.len()
                        &&& *f == self.entries@[i]
                        &&& (#[trigger] self.entries@[i]).function_id@ == function_id@
                        &&& forall|m: int|
                            0 <= m < i ==> (#[trigger] self.entries@[m]).function_id@
                                != function_id@
                    },
                None => forall|i: int|
                    0 <= i < self.entries@.len() ==> (#[trigger] self.entries@[i]).function_id@
                        != function_id@,
            },
{
        let n = self.entries.len();
        let mut k: usize = 0;
        while k < n
            invariant
                k <= n,
                n == self.entries@.len(),
                forall|m: int|
                    0 <= m < k ==> (#[trigger] self.entries@[m]).function_id@ != function_id@,
            decreases n - k,
        {
            if str_eq(self.entries[k].function_id.as_str(), function_id) {
                return Some(&self.entries[k]);
            }
            k = k + 1;
        }
        None
    }
}

/// Validates a request's argument object against a function's declared
/// shapes, before any code is generated: every declared argument must be
/// bound, and every bound value must take its declared shape.
pub fn validate_bindings(json: &JsonValue, schema: &FunctionSchema) -> (r: Result<
    (),
    MiniModalError,
>)
    ensures
        match r {
            Ok(_) => {
                &&& json@ is Obj
                &&& forall|k: int|
                    0 <= k < schema.arg_descriptors@.len() ==> ({
                        let looked = jlookup(
                            json@->Obj_0,
                            (#[trigger] schema.arg_descriptors@[k]).0@,
                        );
                        looked is Some && matches_schema(
                            looked->Some_0,
                            schema.arg_descriptors@[k].2,
                        )
                    })
            },
            Err(e) => {
                &&& e is SerializationError
                &&& !(json@ is Obj && forall|k: int|
                    0 <= k < schema.arg_descriptors@.len() ==> ({
                        let looked = jlookup(
                            json@->Obj_0,
                            (#[trigger] schema.arg_descriptors@[k]).0@,
                        );
                        looked is Some && matches_schema(
                            looked->Some_0,
                            schema.arg_descriptors@[k].2,
                        )
                    }))
            },
        },
{
    let members = match json {
        JsonValue::Obj(members) => members,
        _ => {
            let mut m = String::new();
            m.append("json is not an object");
            return Err(MiniModalError::SerializationError(m));
        },
    };
    assert(json@ == JVal::Obj(jfields_of(members@)));
    let n = schema.arg_descriptors.len();
    let mut k: usize = 0;
    while k < n
        invariant
            k <= n,
            n == schema.arg_descriptors@.len(),
            json@ == JVal::Obj(jfields_of(members@)),
            forall|m: int|
                0 <= m < k ==> ({
                    let looked = jlookup(
                        json@->Obj_0,
                        (#[trigger] schema.arg_descriptors@[m]).0@,
                    );
                    looked is Some && matches_schema(
                        looked->Some_0,
                        schema.arg_descriptors@[m].2,
                    )
                }),
        decreases n - k,
    {
        let name = &schema.arg_descriptors[k].0;
        match obj_lookup(members, name.as_str()) {
            None => {
                let mut m = String::new();
                m.append("key ");
                m.append(name.as_str());
                m.append(" not found in json");
                return Err(MiniModalError::SerializationError(m));
            },
            Some(value) => {
                if !check_schema(value, &schema.arg_descriptors[k].2) {
                    let mut m = String::new();
                    m.append("argument ");
                    m.append(name.as_str());
                    m.append(" does not match its declared shape");
                    return Err(MiniModalError::SerializationError(m));
                }
            },
        }
        k = k + 1;
    }
    Ok(())
}

} // verus!
