//! Argument handling for the invocation synthesizer: looking argument values
//! up in the request's JSON object, generating one declaration statement per
//! argument, and moving argument blobs to and from their JSON text.
use vstd::prelude::*;
use crate::codec::parse_json_text;
use crate::codec::to_json_text;
use crate::errors::MiniModalError;
use crate::json::JVal;
use crate::json::JsonValue;
use crate::json::jfields_of;
use crate::json::lemma_jfields_of_index;
use crate::json::lemma_jfields_of_len;
use crate::json::parse_val;
use crate::json::ser;
use crate::text::str_eq;

verus! {

broadcast use lemma_jfields_of_len, lemma_jfields_of_index;

/// The value under `name` in an object's member list: the first member with
/// that key, as JSON keeps earlier duplicates.
pub open spec fn jlookup(fields: Seq<(Seq<char>, JVal)>, name: Seq<char>) -> Option<JVal>
    decreases fields.len(),
{
    if fields.len() == 0 {
        None
    } else if fields[0].0 == name {
        Some(fields[0].1)
    } else {
        jlookup(fields.drop_first(), name)
    }
}

/// Finds the value under `name` in an object's members.
pub fn obj_lookup<'a>(fields: &'a Vec<(String, JsonValue)>, name: &str) -> (r: Option<
    &'a JsonValue,
>)
    ensures
        match r {
            Some(v) => jlookup(jfields_of(fields@), name@) == Some(v@),
            None => jlookup(jfields_of(fields@), name@) is None,
        },
{
    let ghost all = jfields_of(fields@);
    proof {
        assert(all.skip(0) =~= all);
    }
    let mut k: usize = 0;
    while k < fields.len()
        invariant
            k <= fields@.len(),
            all == jfields_of(fields@),
            all.len() == fields@.len(),
            jlookup(all, name@) == jlookup(all.skip(k as int), name@),
        decreases fields@.len() - k,
    {
        if str_eq(fields[k].0.as_str(), name) {
            proof {
                assert(all.skip(k as int)[0] == all[k as int]);
                assert(all[k as int].0 == name@);
            }
            return Some(&fields[k].1);
        }
        proof {
            assert(all.skip(k as int)[0] == all[k as int]);
            assert(all[k as int].0 != name@);
            assert(all.skip(k as int).drop_first() =~= all.skip(k as int + 1));
        }
        k = k + 1;
    }
    proof {
        assert(all.skip(k as int) =~= Seq::<(Seq<char>, JVal)>::empty());
    }
    None
}

/// Finds the position of the first member under `name`.
pub fn obj_lookup_index(fields: &Vec<(String, JsonValue)>, name: &str) -> (r: Option<usize>)
    ensures
        match r {
            Some(i) => {
                &&& i < fields@.len()
                &&& fields@[i as int].0@ == name@
                &&& jlookup(jfields_of(fields@), name@) == Some(jfields_of(fields@)[i as int].1)
            },
            None => jlookup(jfields_of(fields@), name@) is None,
        },
{
    let ghost all = jfields_of(fields@);
    proof {
        assert(all.skip(0) =~= all);
    }
    let mut k: usize = 0;
    while k < fields.len()
        invariant
            k <= fields@.len(),
            all == jfields_of(fields@),
            all.len() == fields@.len(),
            jlookup(all, name@) == jlookup(all.skip(k as int), name@),
        decreases fields@.len() - k,
    {
        if str_eq(fields[k].0.as_str(), name) {
            proof {
                assert(all.skip(k as int)[0] == all[k as int]);
                assert(all[k as int].0 == name@);
            }
            return Some(k);
        }
        proof {
            assert(all.skip(k as int)[0] == all[k as int]);
            assert(all[k as int].0 != name@);
            assert(all.skip(k as int).drop_first() =~= all.skip(k as int + 1));
        }
        k = k + 1;
    }
    proof {
        assert(all.skip(k as int) =~= Seq::<(Seq<char>, JVal)>::empty());
    }
    None
}

/// The declaration statement the synthesizer emits for one argument.
pub open spec fn decl_line(name: Seq<char>, ty: Seq<char>, value: JVal) -> Seq<char> {
    "let "@ + name + ": "@ + ty + " = serde_json::from_value(serde_json::json!("@ + ser(value)
        + ")).unwrap();"@
}

/// The value bound to an argument name by the request's JSON object.
pub open spec fn bound_value(j: JVal, name: Seq<char>) -> JVal {
    jlookup(j->Obj_0, name)->Some_0
}

/// Whether the JSON blob is an object holding every argument name.
pub open spec fn all_args_present(j: JVal, args: Seq<(String, String)>) -> bool {
    &&& j is Obj
    &&& forall|k: int|
        0 <= k < args.len() ==> jlookup(j->Obj_0, (#[trigger] args[k]).0@) is Some
}

/// The declaration block for an argument list: one statement per argument,
/// in argument order, joined by newlines.
pub open spec fn decls_text(j: JVal, args: Seq<(String, String)>) -> Seq<char>
    decreases args.len(),
{
    if args.len() == 0 {
        Seq::empty()
    } else {
        let head = decl_line(args[0].0@, args[0].1@, bound_value(j, args[0].0@));
        if args.len() == 1 {
            head
        } else {
            head + seq!['\n'] + decls_text(j, args.drop_first())
        }
    }
}

/// Appends one declaration statement.
fn push_decl(out: &mut String, name: &str, ty: &str, value: &JsonValue)
    ensures
        final(out)@ == old(out)@ + decl_line(name@, ty@, value@),
{
    out.append("let ");
    out.append(name);
    out.append(": ");
    out.append(ty);
    out.append(" = serde_json::from_value(serde_json::json!(");
    let vt = to_json_text(value);
    out.append(vt.as_str());
    out.append(")).unwrap();");
}

/// Appends the declarations for the arguments `args[k..]`.
fn push_decls(out: &mut String, json: &JsonValue, fields: &Vec<(String, JsonValue)>, args: &Vec<
    (String, String),
>, k: usize)
    requires
        k < args@.len(),
        json@ == JVal::Obj(jfields_of(fields@)),
        all_args_present(json@, args@),
    ensures
        final(out)@ == old(out)@ + decls_text(json@, args@.skip(k as int)),
    decreases args@.len() - k,
{
    let name = &args[k].0;
    let ty = &args[k].1;
    assert(jlookup(json@->Obj_0, args@[k as int].0@) is Some);
    let looked = obj_lookup(fields, name.as_str());
    let value = match looked {
        Some(v) => v,
        None => {
            proof {
                assert(false);
            }
            json  // unreachable: the argument is present
        },
    };
    push_decl(out, name.as_str(), ty.as_str(), value);
    proof {
        let rest = args@.skip(k as int);
        assert(rest[0] == args@[k as int]);
        assert(decl_line(name@, ty@, value@) == decl_line(
            rest[0].0@,
            rest[0].1@,
            bound_value(json@, rest[0].0@),
        ));
    }
    if k < args.len() - 1 {
        out.append("\n");
        push_decls(out, json, fields, args, k + 1);
        proof {
            let rest = args@.skip(k as int);
            assert(rest.len() >= 2);
            assert(rest.drop_first() =~= args@.skip(k as int + 1));
            reveal_strlit("\n");
            assert("\n"@ =~= seq!['\n']);
            assert((old(out)@ + decl_line(
                rest[0].0@,
                rest[0].1@,
                bound_value(json@, rest[0].0@),
            ) + "\n"@) + decls_text(json@, args@.skip(k as int + 1)) =~= old(out)@ + decls_text(
                json@,
                rest,
            ));
        }
    } else {
        proof {
            let rest = args@.skip(k as int);
            assert(rest.len() == 1);
        }
    }
}

/// Emits one local-declaration statement per argument, deserializing the
/// value bound to the argument's name in the JSON object.
///
/// Succeeds exactly when the blob is a JSON object holding every argument
/// name; a missing name is refused before any program text is generated,
/// naming the first argument that has no value.
pub fn declare_values_from_json(json: &JsonValue, arg_types: &Vec<(String, String)>) -> (r: Result<
    String,
    MiniModalError,
>)
    ensures
        match r {
            Ok(out) => all_args_present(json@, arg_types@) && out@ == decls_text(
                json@,
                arg_types@,
            ),
            Err(e) => {
                &&& !all_args_present(json@, arg_types@)
                &&& e is SerializationError
                &&& if !(json@ is Obj) {
                    e.message_spec() == "json is not an object"@
                } else {
                    exists|k: int|
                        {
                            &&& 0 <= k < arg_types@.len()
                            &&& jlookup(json@->Obj_0, (#[trigger] arg_types@[k]).0@) is None
                            &&& forall|m: int|
                                0 <= m < k ==> jlookup(
                                    json@->Obj_0,
                                    (#[trigger] arg_types@[m]).0@,
                                ) is Some
                            &&& e.message_spec() == "key "@ + arg_types@[k].0@
                                + " not found in json"@
                        }
                }
            },
        },
{
    let fields = match json {
        JsonValue::Obj(fields) => fields,
        _ => {
            let mut m = String::new();
            m.append("json is not an object");
            return Err(MiniModalError::SerializationError(m));
        },
    };
    assert(json@ == JVal::Obj(jfields_of(fields@)));
    let mut k: usize = 0;
    while k < arg_types.len()
        invariant
            k <= arg_types@.len(),
            json@ == JVal::Obj(jfields_of(fields@)),
            forall|m: int|
                0 <= m < k ==> jlookup(json@->Obj_0, (#[trigger] arg_types@[m]).0@) is Some,
        decreases arg_types@.len() - k,
    {
        match obj_lookup(fields, arg_types[k].0.as_str()) {
            Some(_) => {},
            None => {
                let mut m = String::new();
                m.append("key ");
                m.append(arg_types[k].0.as_str());
                m.append(" not found in json");
                return Err(MiniModalError::SerializationError(m));
            },
        }
        k = k + 1;
    }
    let mut out = String::new();
    if arg_types.len() > 0 {
        assert(arg_types@.skip(0) =~= arg_types@);
        push_decls(&mut out, json, fields, arg_types, 0);
    } else {
        assert(decls_text(json@, arg_types@) == Seq::<char>::empty());
    }
    Ok(out)
}

/// Builds the JSON object text that carries named argument values to the
/// server: exactly the compact text of the object with those members, in
/// order.
pub fn serialize_inputs(args: Vec<(String, JsonValue)>) -> (r: String)
    ensures
        r@ == ser(JVal::Obj(jfields_of(args@))),
{
    let obj = JsonValue::Obj(args);
    to_json_text(&obj)
}

/// Reads an argument blob back from its JSON text.  Succeeds exactly when
/// the whole text is one compact-form document.
pub fn deserialize_inputs(serialized_inputs: &str) -> (r: Result<JsonValue, MiniModalError>)
    ensures
        match r {
            Ok(v) => parse_val(serialized_inputs@) == Some((v@, Seq::<char>::empty())),
            Err(e) => {
                &&& (parse_val(serialized_inputs@) is Some ==> parse_val(
                    serialized_inputs@,
                )->Some_0.1.len() != 0)
                &&& e is SerializationError
                &&& e.message_spec() == "inputs are not a single json document"@
            },
        },
{
    match parse_json_text(serialized_inputs) {
        Some(v) => Ok(v),
        None => {
            let mut m = String::new();
            m.append("inputs are not a single json document");
            Err(MiniModalError::SerializationError(m))
        },
    }
}

/// The harness wrapped around a code fragment to check that it compiles:
/// a `main` that runs the fragment and reports no error.
pub open spec fn check_harness(code: Seq<char>) -> Seq<char> {
    "use serde_json;\nfn main() -> Result<(), Box<dyn std::error::Error>> {\n"@ + code
        + "\nOk(())\n}\n"@
}

/// Wraps a code fragment for a compile check, exactly as `check_harness`
/// describes; the caller hands the result to the toolchain.
pub fn wrap_code_for_check(code: &str) -> (r: String)
    ensures
        r@ == check_harness(code@),
{
    let mut out = String::new();
    out.append("use serde_json;\nfn main() -> Result<(), Box<dyn std::error::Error>> {\n");
    out.append(code);
    out.append("\nOk(())\n}\n");
    out
}

/// Binding order does not matter to synthesis: two JSON objects that bind
/// every argument name to the same value yield the same declaration block,
/// whatever order their members came in.
pub proof fn lemma_binding_order_irrelevant(
    j1: JVal,
    j2: JVal,
    args: Seq<(String, String)>,
)
    requires
        j1 is Obj,
        j2 is Obj,
        forall|k: int|
            0 <= k < args.len() ==> jlookup(j1->Obj_0, (#[trigger] args[k]).0@) == jlookup(
                j2->Obj_0,
                args[k].0@,
            ),
    ensures
        decls_text(j1, args) == decls_text(j2, args),
    decreases args.len(),
{
    if args.len() > 0 {
        assert(jlookup(j1->Obj_0, args[0].0@) == jlookup(j2->Obj_0, args[0].0@));
        assert(bound_value(j1, args[0].0@) == bound_value(j2, args[0].0@));
        assert forall|k: int| 0 <= k < args.drop_first().len() implies jlookup(
            j1->Obj_0,
            (#[trigger] args.drop_first()[k]).0@,
        ) == jlookup(j2->Obj_0, args.drop_first()[k].0@) by {
            assert(args.drop_first()[k] == args[k + 1]);
        }
        lemma_binding_order_irrelevant(j1, j2, args.drop_first());
    }
}

/// Permuting an object's members does not change what any name is bound to,
/// so long as the keys are distinct: the ground for reordering argument
/// bindings freely in a request.
pub proof fn lemma_permuted_members_bind_alike(
    f1: Seq<(Seq<char>, JVal)>,
    f2: Seq<(Seq<char>, JVal)>,
    perm: Seq<int>,
    name: Seq<char>,
)
    requires
        perm.len() == f2.len(),
        f1.len() == f2.len(),
        forall|i: int| 0 <= i < perm.len() ==> 0 <= #[trigger] perm[i] < f1.len(),
        forall|i: int, m: int| 0 <= i < m < perm.len() ==> perm[i] != perm[m],
        forall|i: int| 0 <= i < f2.len() ==> #[trigger] f2[i] == f1[perm[i]],
        forall|i: int, m: int|
            0 <= i < m < f1.len() ==> (#[trigger] f1[i]).0 != (#[trigger] f1[m]).0,
    ensures
        jlookup(f1, name) == jlookup(f2, name),
{
    if jlookup(f1, name) is Some {
        let k1 = lemma_jlookup_found(f1, name);
        let witness = choose|i: int| 0 <= i < perm.len() && perm[i] == k1;
        assert(exists|i: int| 0 <= i < perm.len() && perm[i] == k1) by {
            lemma_perm_onto(perm, f1.len() as int, k1);
        }
        assert(f2[witness].0 == name);
        lemma_jlookup_some_of_member(f2, name, witness);
        let k2 = lemma_jlookup_found(f2, name);
        assert(f2[k2] == f1[perm[k2]]);
        assert(f1[perm[k2]].0 == name);
        assert(perm[k2] == k1);
        assert(jlookup(f2, name) == Some(f1[k1].1));
    } else {
        if jlookup(f2, name) is Some {
            let k2 = lemma_jlookup_found(f2, name);
            assert(f1[perm[k2]].0 == name);
            lemma_jlookup_some_of_member(f1, name, perm[k2]);
            assert(false);
        }
    }
}

/// When a lookup succeeds there is a member with that key, and the lookup
/// returns the first such member's value.
proof fn lemma_jlookup_found(fields: Seq<(Seq<char>, JVal)>, name: Seq<char>) -> (k: int)
    requires
        jlookup(fields, name) is Some,
    ensures
        0 <= k < fields.len(),
        fields[k].0 == name,
        jlookup(fields, name) == Some(fields[k].1),
        forall|m: int| 0 <= m < k ==> (#[trigger] fields[m]).0 != name,
    decreases fields.len(),
{
    if fields[0].0 == name {
        0
    } else {
        let k0 = lemma_jlookup_found(fields.drop_first(), name);
        assert forall|m: int| 0 <= m < k0 + 1 implies (#[trigger] fields[m]).0 != name by {
            if m > 0 {
                assert(fields.drop_first()[m - 1] == fields[m]);
            }
        }
        assert(fields.drop_first()[k0] == fields[k0 + 1]);
        k0 + 1
    }
}

/// A member whose key matches makes the lookup succeed.
pub proof fn lemma_jlookup_some_of_member(fields: Seq<(Seq<char>, JVal)>, name: Seq<char>, k: int)
    requires
        0 <= k < fields.len(),
        fields[k].0 == name,
    ensures
        jlookup(fields, name) is Some,
    decreases fields.len(),
{
    if fields[0].0 != name {
        assert(fields.drop_first()[k - 1] == fields[k]);
        lemma_jlookup_some_of_member(fields.drop_first(), name, k - 1);
    }
}

/// An injective map from a finite range into a set of the same size is onto.
proof fn lemma_perm_onto(perm: Seq<int>, n: int, target: int)
    requires
        perm.len() == n,
        0 <= target < n,
        forall|i: int| 0 <= i < perm.len() ==> 0 <= #[trigger] perm[i] < n,
        forall|i: int, m: int| 0 <= i < m < perm.len() ==> perm[i] != perm[m],
    ensures
        exists|i: int| 0 <= i < perm.len() && perm[i] == target,
{
    if !(exists|i: int| 0 <= i < perm.len() && perm[i] == target) {
        assert(perm.no_duplicates()) by {
            assert forall|i: int, m: int|
                0 <= i < perm.len() && 0 <= m < perm.len() && i != m implies perm[i]
                != perm[m] by {
                if i < m {
                } else {
                    assert(0 <= m < i < perm.len());
                }
            }
        }
        perm.unique_seq_to_set();
        let range = vstd::set_lib::set_int_range(0, n);
        vstd::set_lib::lemma_int_range(0, n);
        let without = range.remove(target);
        assert(without.len() == n - 1);
        assert(perm.to_set().subset_of(without)) by {
            assert forall|v: int| perm.to_set().contains(v) implies without.contains(v) by {
                assert(perm.contains(v));
                let i = choose|i: int| 0 <= i < perm.len() && perm[i] == v;
                assert(0 <= v < n);
                assert(v != target);
            }
        }
        vstd::set_lib::lemma_len_subset(perm.to_set(), without);
        assert(perm.to_set().len() <= n - 1);
        assert(false);
    }
}

} // verus!
