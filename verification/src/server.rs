//! The server side of an invocation: synthesizing the driver program,
//! scanning captured process output for the sentinel envelope, classifying
//! the outcome, and laying out the event stream the caller receives.
use vstd::prelude::*;
use vstd::string::StrSliceExecFns;
use crate::codec::chars_to_string;
use crate::codec::parse_json_text;
use crate::codec::string_to_chars;
use crate::codec::to_json_text;
use crate::errors::MiniModalError;
use crate::json::JVal;
use crate::json::JsonValue;
use crate::json::jfields_of;
use crate::json::jval_of;
use crate::json::lemma_jfields_of_index;
use crate::json::lemma_jfields_of_len;
use crate::json::parse_val;
use crate::json::ser;
use crate::text::find_sub;
use crate::text::find_sub_from;
use crate::text::lemma_find_char_from_props;
use crate::text::lemma_find_sub_from_props;
use crate::text::lines_from;
use crate::text::occurs_at;
use crate::text::split_lines;
use crate::text::vec_slice;
use crate::utils::all_args_present;
use crate::utils::decls_text;
use crate::utils::jlookup;
use crate::json::wf_jval;

verus! {

broadcast use lemma_jfields_of_len, lemma_jfields_of_index;

/// The one terminal value of an invocation: the target function's own
/// result, or a failure message from any of the pipeline's failure domains.
#[derive(Debug)]
pub enum InvocationEnvelope {
    Success(JsonValue),
    Failure(String),
}

/// One event of an invocation's stream: a captured progress line, or the
/// single terminal result that ends the stream.
#[derive(Debug)]
pub enum StreamEvent {
    LogLine(String),
    Terminal(InvocationEnvelope),
}

/// A well-formed stream: one or more events, every event before the last a
/// progress line, and the last the single terminal result.
pub open spec fn wf_stream(events: Seq<StreamEvent>) -> bool {
    &&& events.len() >= 1
    &&& events.last() is Terminal
    &&& forall|m: int| 0 <= m < events.len() - 1 ==> (#[trigger] events[m]) is LogLine
}

/// The call's argument list: the argument names in order, comma-separated.
pub open spec fn names_joined(args: Seq<(String, String)>) -> Seq<char>
    decreases args.len(),
{
    if args.len() == 0 {
        Seq::empty()
    } else if args.len() == 1 {
        args[0].0@
    } else {
        args[0].0@ + ", "@ + names_joined(args.drop_first())
    }
}

/// The synthesized driver program: the mounted source text, then a generated
/// entry point that declares the arguments, awaits the target function, and
/// prints the result as a JSON envelope between the two sentinel markers.
pub open spec fn program_text(
    code: Seq<char>,
    decls: Seq<char>,
    args_list: Seq<char>,
    output_type: Seq<char>,
    function_id: Seq<char>,
) -> Seq<char> {
    code + "\n\n#[tokio::main(flavor = \"current_thread\")]\nasync fn main() {\n    "@ + decls
        + "\n    let result: "@ + output_type + " = "@ + function_id + "("@ + args_list
        + ").await;\n    let json_result = match result {\n        Ok(value) => serde_json::json!({\"success\": value}),\n        Err(e) => serde_json::json!({\"error\": e.to_string()}),\n    };\n    println!(\"RESULT_START{}RESULT_END\", json_result);\n}\n"@
}

/// Appends the comma-separated argument names `args[k..]`.
fn push_names(out: &mut String, args: &Vec<(String, String)>, k: usize)
    requires
        k < args@.len(),
    ensures
        final(out)@ == old(out)@ + names_joined(args@.skip(k as int)),
    decreases args@.len() - k,
{
    out.append(args[k].0.as_str());
    proof {
        let rest = args@.skip(k as int);
        assert(rest[0] == args@[k as int]);
    }
    if k < args.len() - 1 {
        out.append(", ");
        push_names(out, args, k + 1);
        proof {
            let rest = args@.skip(k as int);
            assert(rest.len() >= 2);
            assert(rest.drop_first() =~= args@.skip(k as int + 1));
            assert(old(out)@ + rest[0].0@ + ", "@ + names_joined(args@.skip(k as int + 1)) =~= old(
                out,
            )@ + names_joined(rest));
        }
    } else {
        proof {
            let rest = args@.skip(k as int);
            assert(rest.len() == 1);
        }
    }
}

/// Concatenates the mounted source with the generated entry point, exactly
/// as `program_text` describes.
pub fn format_code(
    original_code: &str,
    let_declarations: &str,
    arg_types: &Vec<(String, String)>,
    output_type: &str,
    function_id: &str,
) -> (r: String)
    ensures
        r@ == program_text(
            original_code@,
            let_declarations@,
            names_joined(arg_types@),
            output_type@,
            function_id@,
        ),
{
    let mut out = String::new();
    out.append(original_code);
    out.append("\n\n#[tokio::main(flavor = \"current_thread\")]\nasync fn main() {\n    ");
    out.append(let_declarations);
    out.append("\n    let result: ");
    out.append(output_type);
    out.append(" = ");
    out.append(function_id);
    out.append("(");
    if arg_types.len() > 0 {
        assert(arg_types@.skip(0) =~= arg_types@);
        push_names(&mut out, arg_types, 0);
    } else {
        assert(names_joined(arg_types@) == Seq::<char>::empty());
    }
    out.append(").await;\n    let json_result = match result {\n        Ok(value) => serde_json::json!({\"success\": value}),\n        Err(e) => serde_json::json!({\"error\": e.to_string()}),\n    };\n    println!(\"RESULT_START{}RESULT_END\", json_result);\n}\n");
    out
}

/// The text between the first sentinel pair in captured output: what stands
/// after the first start marker, cut at the first end marker after it (or
/// running to the end of the output when no end marker follows).
pub open spec fn envelope_text_of(s: Seq<char>) -> Option<Seq<char>> {
    match find_sub_from(s, "RESULT_START"@, 0) {
        None => None,
        Some(i) => {
            let after = s.skip(i + "RESULT_START"@.len());
            match find_sub_from(after, "RESULT_END"@, 0) {
                None => Some(after),
                Some(j) => Some(after.take(j)),
            }
        },
    }
}

/// Finds the first sentinel pair in the captured output; returns the
/// enclosed text and the position of the start marker.
fn extract_envelope(s: &Vec<char>) -> (r: Option<(String, usize)>)
    ensures
        match r {
            Some(p) => {
                &&& find_sub_from(s@, "RESULT_START"@, 0) == Some(p.1 as int)
                &&& envelope_text_of(s@) == Some(p.0@)
            },
            None => envelope_text_of(s@) is None,
        },
{
    let start_pat = string_to_chars("RESULT_START");
    let end_pat = string_to_chars("RESULT_END");
    match find_sub(s, &start_pat) {
        None => None,
        Some(i) => {
            proof {
                lemma_find_sub_from_props(s@, "RESULT_START"@, 0);
            }
            let n = s.len();
            assert(i + start_pat@.len() <= n);
            let after_start = i + start_pat.len();
            let after = vec_slice(s, after_start, s.len());
            proof {
                assert(after@ =~= s@.skip(i + "RESULT_START"@.len()));
            }
            match find_sub(&after, &end_pat) {
                None => {
                    let txt = chars_to_string(&after);
                    Some((txt, i))
                },
                Some(j) => {
                    proof {
                        lemma_find_sub_from_props(after@, "RESULT_END"@, 0);
                    }
                    let inner = vec_slice(&after, 0, j);
                    proof {
                        assert(inner@ =~= after@.take(j as int));
                    }
                    let txt = chars_to_string(&inner);
                    Some((txt, i))
                },
            }
        },
    }
}

/// The document a text holds when the whole text is one compact-form
/// document.
pub open spec fn full_parse(t: Seq<char>) -> Option<JVal> {
    match parse_val(t) {
        Some(p) => if p.1.len() == 0 {
            Some(p.0)
        } else {
            None
        },
        None => None,
    }
}

/// The value under `key` when the text parses as an object holding it.
pub open spec fn envelope_field(t: Seq<char>, key: Seq<char>) -> Option<JVal> {
    match full_parse(t) {
        Some(j) => if j is Obj {
            jlookup(j->Obj_0, key)
        } else {
            None
        },
        None => None,
    }
}

/// How a captured run reads as the terminal envelope.  With a well-formed
/// sentinel envelope, the target function's own result comes through:
/// success with its value, or failure with the error's JSON text.  Without
/// one, a failed toolchain exit is a build failure carrying the captured
/// diagnostics, a successful exit is a protocol failure carrying the raw
/// output, and so is an envelope that does not parse as an object with a
/// `success` or `error` member.
pub open spec fn classified(
    env: InvocationEnvelope,
    exit_success: bool,
    out: Seq<char>,
    err: Seq<char>,
) -> bool {
    let et = envelope_text_of(out);
    match env {
        InvocationEnvelope::Success(v) => {
            &&& et is Some
            &&& envelope_field(et->Some_0, "success"@) == Some(v@)
        },
        InvocationEnvelope::Failure(msg) => {
            ||| (et is None && !exit_success && msg@ == "cargo run failed: "@ + err)
            ||| (et is None && exit_success && msg@ == "no result envelope in output: "@ + out)
            ||| (et is Some && envelope_field(et->Some_0, "success"@) is None && envelope_field(
                et->Some_0,
                "error"@,
            ) is Some && msg@ == ser(envelope_field(et->Some_0, "error"@)->Some_0))
            ||| (et is Some && envelope_field(et->Some_0, "success"@) is None && envelope_field(
                et->Some_0,
                "error"@,
            ) is None && msg@ == "invalid result envelope: "@ + out)
        },
    }
}

/// Reads the captured output and exit status of a finished run as the
/// stream's terminal envelope, exactly as `classified` describes.
pub fn extract_result(exit_success: bool, stdout: &str, stderr: &str) -> (r: InvocationEnvelope)
    ensures
        classified(r, exit_success, stdout@, stderr@),
{
    let chars = string_to_chars(stdout);
    match extract_envelope(&chars) {
        None => {
            if !exit_success {
                let mut m = String::new();
                m.append("cargo run failed: ");
                m.append(stderr);
                InvocationEnvelope::Failure(m)
            } else {
                let mut m = String::new();
                m.append("no result envelope in output: ");
                m.append(stdout);
                InvocationEnvelope::Failure(m)
            }
        },
        Some((txt, _pos)) => {
            let parsed = parse_json_text(txt.as_str());
            match parsed {
                Some(v) => match v {
                    JsonValue::Obj(mut fields) => {
                        match crate::utils::obj_lookup_index(&fields, "success") {
                            Some(i) => {
                                let pair = fields.remove(i);
                                InvocationEnvelope::Success(pair.1)
                            },
                            None => {
                                match crate::utils::obj_lookup_index(&fields, "error") {
                                    Some(i) => {
                                        let pair = fields.remove(i);
                                        let msg = to_json_text(&pair.1);
                                        InvocationEnvelope::Failure(msg)
                                    },
                                    None => {
                                        let mut m = String::new();
                                        m.append("invalid result envelope: ");
                                        m.append(stdout);
                                        InvocationEnvelope::Failure(m)
                                    },
                                }
                            },
                        }
                    },
                    _ => {
                        let mut m = String::new();
                        m.append("invalid result envelope: ");
                        m.append(stdout);
                        InvocationEnvelope::Failure(m)
                    },
                },
                None => {
                    let mut m = String::new();
                    m.append("invalid result envelope: ");
                    m.append(stdout);
                    InvocationEnvelope::Failure(m)
                },
            }
        },
    }
}

/// The captured lines that precede the envelope: every complete line before
/// the first start marker, or every line when no marker is present.
pub open spec fn progress_lines(s: Seq<char>) -> Seq<Seq<char>> {
    match find_sub_from(s, "RESULT_START"@, 0) {
        None => lines_from(s, 0),
        Some(i) => {
            let pre = s.take(i);
            if pre.len() == 0 || pre.last() == '\n' {
                lines_from(pre, 0)
            } else {
                lines_from(pre, 0).drop_last()
            }
        },
    }
}

/// The progress lines of a captured output, exactly as `progress_lines`
/// describes.
fn progress_lines_exec(chars: &Vec<char>) -> (r: Vec<String>)
    ensures
        r@.len() == progress_lines(chars@).len(),
        forall|m: int| 0 <= m < r@.len() ==> (#[trigger] r@[m])@ == progress_lines(chars@)[m],
{
    let start_pat = string_to_chars("RESULT_START");
    match find_sub(chars, &start_pat) {
        None => split_lines(chars, 0),
        Some(i) => {
            proof {
                lemma_find_sub_from_props(chars@, "RESULT_START"@, 0);
                assert(occurs_at(chars@, "RESULT_START"@, i as int));
            }
            let pre = vec_slice(chars, 0, i);
            proof {
                assert(pre@ =~= chars@.take(i as int));
            }
            let mut lines = split_lines(&pre, 0);
            if i > 0 && chars[i - 1] != '\n' {
                proof {
                    assert(pre@.len() > 0);
                    assert(pre@.last() == chars@[i as int - 1]);
                    lemma_find_char_from_props(pre@, '\n', 0);
                    assert(lines_from(pre@, 0).len() >= 1);
                }
                let ghost before = lines@;
                lines.pop();
                proof {
                    assert(lines@ =~= before.drop_last());
                    let pl = progress_lines(chars@);
                    assert(pl =~= lines_from(pre@, 0).drop_last());
                }
                lines
            } else {
                lines
            }
        },
    }
}

/// Lays out one invocation's whole event stream from the captured run: the
/// progress lines in output order, then exactly one terminal result, so the
/// stream is well formed by construction.
pub fn collect_run_events(exit_success: bool, stdout: &str, stderr: &str) -> (events: Vec<
    StreamEvent,
>)
    ensures
        wf_stream(events@),
        events@.len() == progress_lines(stdout@).len() + 1,
        forall|m: int|
            0 <= m < progress_lines(stdout@).len() ==> (#[trigger] events@[m]) is LogLine
                && events@[m]->LogLine_0@ == progress_lines(stdout@)[m],
        classified(events@.last()->Terminal_0, exit_success, stdout@, stderr@),
{
    let chars = string_to_chars(stdout);
    let mut lines = progress_lines_exec(&chars);
    let ghost pl = progress_lines(stdout@);
    let ghost orig = lines@;
    let mut events: Vec<StreamEvent> = Vec::new();
    while lines.len() > 0
        invariant
            events@.len() + lines@.len() == orig.len(),
            orig.len() == pl.len(),
            forall|m: int| 0 <= m < orig.len() ==> (#[trigger] orig[m])@ == pl[m],
            forall|m: int|
                0 <= m < events@.len() ==> (#[trigger] events@[m]) is LogLine
                    && events@[m]->LogLine_0 == orig[m],
            forall|m: int| 0 <= m < lines@.len() ==> #[trigger] lines@[m] == orig[events@.len() + m],
        decreases lines@.len(),
    {
        let l = lines.remove(0);
        events.push(StreamEvent::LogLine(l));
    }
    let term = extract_result(exit_success, stdout, stderr);
    events.push(StreamEvent::Terminal(term));
    proof {
        assert(events@.last() is Terminal);
        assert forall|m: int| 0 <= m < pl.len() implies (#[trigger] events@[m]) is LogLine
            && events@[m]->LogLine_0@ == pl[m] by {
            assert(events@[m] is LogLine && events@[m]->LogLine_0 == orig[m]);
        }
    }
    events
}

/// Relies on `uuid::Uuid::new_v4` and the hyphenated `Display` form of a
/// uuid: fresh randomness each call, printed as 36 characters, lowercase
/// hexadecimal digits and hyphens.
#[verifier::external_body]
fn fresh_uuid_text() -> (r: String)
    ensures
        r@.len() == 36,
        forall|i: int|
            0 <= i < 36 ==> ('0' <= #[trigger] r@[i] <= '9' || 'a' <= r@[i] <= 'f' || r@[i] == '-'),
{
    uuid::Uuid::new_v4().to_string()
}

/// Where a generated entry point named `name` lives under the shadow
/// project.
pub open spec fn bin_path_of(dir: Seq<char>, name: Seq<char>) -> Seq<char> {
    dir + "/src/bin/"@ + name + ".rs"@
}

/// The path of the generated entry-point file, exactly `bin_path_of`.
pub fn bin_file_path(project_dir_path: &str, name: &str) -> (r: String)
    ensures
        r@ == bin_path_of(project_dir_path@, name@),
{
    let mut out = String::new();
    out.append(project_dir_path);
    out.append("/src/bin/");
    out.append(name);
    out.append(".rs");
    out
}

/// Generates the whole driver program for an invocation: the argument blob
/// parsed, one declaration per argument, and the generated entry point
/// around the mounted source.  Succeeds exactly when the blob is one JSON
/// object holding every argument name; otherwise nothing is synthesized and
/// the refusal comes back before any file is written or process spawned.
pub fn prepare_invocation(
    original_code: &str,
    serialized_inputs: &str,
    arg_types: &Vec<(String, String)>,
    function_id: &str,
    output_type: &str,
) -> (r: Result<String, MiniModalError>)
    ensures
        ({
            let p = parse_val(serialized_inputs@);
            match r {
                Ok(prog) => {
                    &&& p is Some
                    &&& p->Some_0.1.len() == 0
                    &&& all_args_present(p->Some_0.0, arg_types@)
                    &&& prog@ == program_text(
                        original_code@,
                        decls_text(p->Some_0.0, arg_types@),
                        names_joined(arg_types@),
                        output_type@,
                        function_id@,
                    )
                },
                Err(e) => {
                    &&& e is SerializationError
                    &&& !(p is Some && p->Some_0.1.len() == 0 && all_args_present(
                        p->Some_0.0,
                        arg_types@,
                    ))
                },
            }
        }),
{
    let parsed = match crate::utils::deserialize_inputs(serialized_inputs) {
        Ok(v) => v,
        Err(e) => {
            return Err(e);
        },
    };
    let decls = match crate::utils::declare_values_from_json(&parsed, arg_types) {
        Ok(d) => d,
        Err(e) => {
            return Err(e);
        },
    };
    Ok(format_code(original_code, decls.as_str(), arg_types, output_type, function_id))
}

/// The stream for an invocation refused before any work started: no
/// progress line, only the terminal failure carrying the refusal's message.
pub fn immediate_failure_events(e: &MiniModalError) -> (events: Vec<StreamEvent>)
    ensures
        wf_stream(events@),
        events@.len() == 1,
        events@[0] is Terminal,
        events@[0]->Terminal_0 is Failure,
        events@[0]->Terminal_0->Failure_0@ == e.message_spec(),
{
    let msg = e.message();
    let mut copy = String::new();
    copy.append(msg.as_str());
    let mut events: Vec<StreamEvent> = Vec::new();
    events.push(StreamEvent::Terminal(InvocationEnvelope::Failure(copy)));
    events
}

/// The server's state: where the shadow project lives, and the tree of
/// files mounted into it.
#[derive(Debug)]
pub struct MiniModalService {
    pub project_dir_path: String,
    pub store: crate::mount::ShadowStore,
}

impl MiniModalService {
    /// A service over a fresh, empty shadow project at the given path.
    pub fn new(project_dir_path: String) -> (r: MiniModalService)
        ensures
            r.project_dir_path@ == project_dir_path@,
            r.store@ == Map::<Seq<char>, Seq<u8>>::empty(),
    {
        MiniModalService { project_dir_path, store: crate::mount::ShadowStore::new() }
    }

    /// Where the mounted project's entry source lives under the shadow
    /// project.
    pub fn original_main_path(&self) -> (r: String)
        ensures
            r@ == self.project_dir_path@ + "/src/original_main.rs"@,
    {
        let mut out = String::new();
        out.append(self.project_dir_path.as_str());
        out.append("/src/original_main.rs");
        out
    }

    /// Mounts a request into the shadow project, in place: accepted exactly
    /// when well formed, each entry overwriting whatever stood at its path.
    pub fn mount_project(&mut self, req: crate::mount::MountRequest) -> (r:
        crate::mount::MountResult)
        ensures
            final(self).project_dir_path == old(self).project_dir_path,
            match r {
                crate::mount::MountResult::Success(msg) => {
                    &&& crate::mount::wf_mount_request(req.files@)
                    &&& final(self).store@ == crate::mount::apply_files(
                        old(self).store@,
                        req.files@,
                    )
                    &&& msg@ == "Mounted project"@
                },
                crate::mount::MountResult::Failure(msg) => {
                    &&& !crate::mount::wf_mount_request(req.files@)
                    &&& final(self).store@ == old(self).store@
                    &&& msg@
                        == "mount request refused: a path leaves the project root or repeats"@
                },
            },
    {
        self.store.mount_project(req)
    }

    /// Synthesizes the driver program for one invocation and picks the
    /// fresh, collision-free entry point it will run as.  On refusal
    /// nothing is named and nothing is to be written or spawned.
    pub fn run_function_prepare(
        &self,
        original_code: &str,
        serialized_inputs: &str,
        arg_types: &Vec<(String, String)>,
        function_id: &str,
        output_type: &str,
    ) -> (r: Result<(String, String, String), MiniModalError>)
        ensures
            ({
                let p = parse_val(serialized_inputs@);
                match r {
                    Ok((name, path, prog)) => {
                        &&& name@.len() == 36
                        &&& path@ == bin_path_of(self.project_dir_path@, name@)
                        &&& p is Some
                        &&& p->Some_0.1.len() == 0
                        &&& all_args_present(p->Some_0.0, arg_types@)
                        &&& prog@ == program_text(
                            original_code@,
                            decls_text(p->Some_0.0, arg_types@),
                            names_joined(arg_types@),
                            output_type@,
                            function_id@,
                        )
                    },
                    Err(e) => {
                        &&& e is SerializationError
                        &&& !(p is Some && p->Some_0.1.len() == 0 && all_args_present(
                            p->Some_0.0,
                            arg_types@,
                        ))
                    },
                }
            }),
    {
        let program = match prepare_invocation(
            original_code,
            serialized_inputs,
            arg_types,
            function_id,
            output_type,
        ) {
            Ok(p) => p,
            Err(e) => {
                return Err(e);
            },
        };
        let name = fresh_uuid_text();
        let path = bin_file_path(self.project_dir_path.as_str(), name.as_str());
        Ok((name, path, program))
    }
}

/// One argument of an invocation: the formal parameter's name, its declared
/// source type, and the value to bind, as JSON.
#[derive(Debug)]
pub struct ArgumentBinding {
    pub name: String,
    pub declared_type: String,
    pub value: JsonValue,
}

/// One request to run a function against the mounted project.
#[derive(Debug)]
pub struct InvocationRequest {
    pub function_id: String,
    pub output_type_name: String,
    pub bindings: Vec<ArgumentBinding>,
}

/// The argument object a request's bindings stand for, member per binding,
/// in order.
pub open spec fn binding_members(bs: Seq<ArgumentBinding>) -> Seq<(Seq<char>, JVal)>
    decreases bs.len(),
{
    if bs.len() == 0 {
        Seq::empty()
    } else {
        binding_members(bs.drop_last()).push((bs.last().name@, jval_of(bs.last().value)))
    }
}

/// The (name, declared type) pairs of a request's bindings, in order.
pub open spec fn binding_types(bs: Seq<ArgumentBinding>) -> Seq<(String, String)>
    decreases bs.len(),
{
    if bs.len() == 0 {
        Seq::empty()
    } else {
        binding_types(bs.drop_last()).push((bs.last().name, bs.last().declared_type))
    }
}

proof fn lemma_binding_members_props(bs: Seq<ArgumentBinding>)
    ensures
        binding_members(bs).len() == bs.len(),
        binding_types(bs).len() == bs.len(),
        forall|i: int|
            0 <= i < bs.len() ==> #[trigger] binding_members(bs)[i] == (
                bs[i].name@,
                jval_of(bs[i].value),
            ),
        forall|i: int|
            0 <= i < bs.len() ==> #[trigger] binding_types(bs)[i] == (
                bs[i].name,
                bs[i].declared_type,
            ),
    decreases bs.len(),
{
    if bs.len() > 0 {
        lemma_binding_members_props(bs.drop_last());
        assert forall|i: int| 0 <= i < bs.len() implies #[trigger] binding_members(bs)[i] == (
            bs[i].name@,
            jval_of(bs[i].value),
        ) by {
            if i < bs.len() - 1 {
                assert(bs.drop_last()[i] == bs[i]);
            }
        }
        assert forall|i: int| 0 <= i < bs.len() implies #[trigger] binding_types(bs)[i] == (
            bs[i].name,
            bs[i].declared_type,
        ) by {
            if i < bs.len() - 1 {
                assert(bs.drop_last()[i] == bs[i]);
            }
        }
    }
}

/// Synthesizes the whole driver program for a request whose bindings carry
/// their values: every argument is bound by construction, so synthesis
/// cannot be refused.
pub fn synthesize_invocation(original_code: &str, req: InvocationRequest) -> (r: String)
    ensures
        r@ == program_text(
            original_code@,
            decls_text(
                JVal::Obj(binding_members(req.bindings@)),
                binding_types(req.bindings@),
            ),
            names_joined(binding_types(req.bindings@)),
            req.output_type_name@,
            req.function_id@,
        ),
{
    let ghost orig = req.bindings@;
    let mut bindings = req.bindings;
    let mut members: Vec<(String, JsonValue)> = Vec::new();
    let mut arg_types: Vec<(String, String)> = Vec::new();
    proof {
        lemma_binding_members_props(orig);
    }
    while bindings.len() > 0
        invariant
            members@.len() + bindings@.len() == orig.len(),
            arg_types@.len() == members@.len(),
            forall|i: int|
                0 <= i < bindings@.len() ==> #[trigger] bindings@[i] == orig[members@.len() + i],
            forall|i: int|
                0 <= i < members@.len() ==> #[trigger] members@[i] == (
                    orig[i].name,
                    orig[i].value,
                ),
            forall|i: int|
                0 <= i < arg_types@.len() ==> #[trigger] arg_types@[i] == (
                    orig[i].name,
                    orig[i].declared_type,
                ),
        decreases bindings@.len(),
    {
        let b = bindings.remove(0);
        let name_copy = b.name.clone();
        arg_types.push((name_copy, b.declared_type));
        members.push((b.name, b.value));
    }
    proof {
        lemma_binding_members_props(orig);
        assert(jfields_of(members@) =~= binding_members(orig));
        assert(arg_types@ =~= binding_types(orig));
    }
    let json = JsonValue::Obj(members);
    proof {
        assert(json@ == JVal::Obj(binding_members(orig)));
        assert forall|k: int| 0 <= k < arg_types@.len() implies jlookup(
            json@->Obj_0,
            (#[trigger] arg_types@[k]).0@,
        ) is Some by {
            assert(binding_members(orig)[k] == (orig[k].name@, jval_of(orig[k].value)));
            assert(arg_types@[k].0@ == orig[k].name@);
            crate::utils::lemma_jlookup_some_of_member(
                binding_members(orig),
                orig[k].name@,
                k,
            );
        }
    }
    let decls = match crate::utils::declare_values_from_json(&json, &arg_types) {
        Ok(d) => d,
        Err(_) => {
            proof {
                assert(false);
            }
            String::new()  // unreachable: every argument is bound by construction
        },
    };
    format_code(
        original_code,
        decls.as_str(),
        &arg_types,
        req.output_type_name.as_str(),
        req.function_id.as_str(),
    )
}

/// Argument ordering idempotence: permuting the members of a request's
/// argument object — the order its bindings arrived in — yields the very
/// same synthesized program, so long as the names are distinct and the
/// name-to-value pairing is kept.
pub proof fn lemma_request_order_irrelevant(
    f1: Seq<(Seq<char>, JVal)>,
    f2: Seq<(Seq<char>, JVal)>,
    perm: Seq<int>,
    args: Seq<(String, String)>,
    code: Seq<char>,
    output_type: Seq<char>,
    function_id: Seq<char>,
)
    requires
        perm.len() == f2.len(),
        f1.len() == f2.len(),
        forall|i: int| 0 <= i < perm.len() ==> 0 <= #[trigger] perm[i] < f1.len(),
        forall|i: int, m: int| 0 <= i < m < perm.len() ==> perm[i] != perm[m],
        forall|i: int| 0 <= i < f2.len() ==> #[trigger] f2[i] == f1[perm[i]],
        forall|i: int, m: int|
            0 <= i < m < f1.len() ==> (#[trigger] f1[i]).0 != (#[trigger] f1[m]).0,
    ensures
        program_text(
            code,
            decls_text(JVal::Obj(f1), args),
            names_joined(args),
            output_type,
            function_id,
        ) == program_text(
            code,
            decls_text(JVal::Obj(f2), args),
            names_joined(args),
            output_type,
            function_id,
        ),
{
    assert forall|k: int| 0 <= k < args.len() implies jlookup(
        JVal::Obj(f1)->Obj_0,
        (#[trigger] args[k]).0@,
    ) == jlookup(JVal::Obj(f2)->Obj_0, args[k].0@) by {
        crate::utils::lemma_permuted_members_bind_alike(f1, f2, perm, args[k].0@);
    }
    crate::utils::lemma_binding_order_irrelevant(JVal::Obj(f1), JVal::Obj(f2), args);
}

/// The envelope object a driver prints for a function that returned `v`.
pub open spec fn success_obj(v: JVal) -> JVal {
    JVal::Obj(seq![("success"@, v)])
}

/// Round trip through the wire format: when the driver's sentinel line for
/// a well-formed value `v` stands in the captured output — its start marker
/// the first in the output, its end marker the first after it — extraction
/// finds exactly the envelope's text, that text reads back as the envelope
/// object, and the object binds `success` to `v`.  With `extract_result`'s
/// contract this pins the terminal event to `Success(v)`.
pub proof fn lemma_round_trip_extraction(v: JVal, pre: Seq<char>, post: Seq<char>)
    requires
        wf_jval(v),
        find_sub_from(
            pre + ("RESULT_START"@ + ser(success_obj(v)) + "RESULT_END"@) + post,
            "RESULT_START"@,
            0,
        ) == Some(pre.len() as int),
        find_sub_from(
            ser(success_obj(v)) + "RESULT_END"@ + post,
            "RESULT_END"@,
            0,
        ) == Some(ser(success_obj(v)).len() as int),
    ensures
        envelope_text_of(pre + ("RESULT_START"@ + ser(success_obj(v)) + "RESULT_END"@) + post)
            == Some(ser(success_obj(v))),
        full_parse(ser(success_obj(v))) == Some(success_obj(v)),
        envelope_field(ser(success_obj(v)), "success"@) == Some(v),
{
    let body = ser(success_obj(v));
    let out = pre + ("RESULT_START"@ + body + "RESULT_END"@) + post;
    let after = out.skip(pre.len() + "RESULT_START"@.len() as int);
    assert(after =~= body + "RESULT_END"@ + post);
    assert(after.take(body.len() as int) =~= body);
    assert(envelope_text_of(out) == Some(body));
    assert(wf_jval(success_obj(v))) by {
        reveal_strlit("success");
        assert forall|i: int| 0 <= i < "success"@.len() implies crate::json::wf_char(
            #[trigger] "success"@[i],
        ) by {
            assert("success"@[i] as u32 >= 32);
        }
        assert(crate::json::wf_string("success"@));
        assert forall|i: int| 0 <= i < success_obj(v)->Obj_0.len() implies crate::json::wf_string(
            (#[trigger] success_obj(v)->Obj_0[i]).0,
        ) && wf_jval(success_obj(v)->Obj_0[i].1) by {
            assert(success_obj(v)->Obj_0[i] == ("success"@, v));
        }
    }
    crate::json::lemma_parse_ser_exact(success_obj(v));
    assert(full_parse(body) == Some(success_obj(v)));
    assert(jlookup(success_obj(v)->Obj_0, "success"@) == Some(v)) by {
        assert(success_obj(v)->Obj_0[0] == ("success"@, v));
    }
}

/// Concurrent invocations never share a generated-artifact path: under one
/// shadow project, entry names of equal length that differ give different
/// entry-point files.
pub proof fn lemma_distinct_entry_paths(dir: Seq<char>, n1: Seq<char>, n2: Seq<char>)
    requires
        n1.len() == n2.len(),
        n1 != n2,
    ensures
        bin_path_of(dir, n1) != bin_path_of(dir, n2),
{
    let p1 = bin_path_of(dir, n1);
    let p2 = bin_path_of(dir, n2);
    if p1 == p2 {
        let off = dir.len() + "/src/bin/"@.len();
        assert forall|k: int| 0 <= k < n1.len() implies n1[k] == n2[k] by {
            assert(p1[off + k] == n1[k]);
            assert(p2[off + k] == n2[k]);
        }
        assert(n1 =~= n2);
    }
}

} // verus!
