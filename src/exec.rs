//! The command line that runs the agent runner for one unit of work.
use vstd::prelude::*;

use crate::lines::{split_words, strings_view, text_words};
use crate::text::copy_text;

verus! {

/// One run of the agent runner: where it works, its prompt, where its outputs go, its
/// sandbox mode, and the schema of its structured output.
pub struct ExecSpec {
    pub cwd: String,
    pub prompt_path: String,
    pub output_path: String,
    pub json_output_path: Option<String>,
    pub sandbox: String,
    pub schema_path: Option<String>,
}

/// How a run ended.
pub struct ExecResult {
    pub status_ok: bool,
}

/// The arguments of a run: `exec --sandbox <mode> --cd <dir> --output-last-message <path>
/// <prompt flag> <prompt>`, then `--output-schema <schema>` where there is a schema,
/// `--json` where a stream is wanted, and the words of the extra arguments.
pub open spec fn run_args(spec: ExecSpec, prompt_flag: Seq<char>, extra: Seq<char>) -> Seq<Seq<char>> {
    let base = seq![
        "exec"@,
        "--sandbox"@,
        spec.sandbox@,
        "--cd"@,
        spec.cwd@,
        "--output-last-message"@,
        spec.output_path@,
        prompt_flag,
        spec.prompt_path@,
    ];
    let with_schema = match spec.schema_path {
        Some(s) => base + seq!["--output-schema"@, s@],
        None => base,
    };
    let with_json = if spec.json_output_path is Some {
        with_schema.push("--json"@)
    } else {
        with_schema
    };
    with_json + text_words(extra)
}

fn push_copy(v: &mut Vec<String>, s: &str)
    ensures
        strings_view(final(v)@) == strings_view(old(v)@).push(s@),
{
    let c = copy_text(s);
    v.push(c);
    assert(strings_view(v@) =~= strings_view(old(v)@).push(s@));
}

/// The arguments of a run of the agent runner.
pub fn run_args_of(spec: &ExecSpec, prompt_flag: &str, extra_args: &str) -> (r: Vec<String>)
    ensures
        strings_view(r@) == run_args(*spec, prompt_flag@, extra_args@),
{
    let mut r: Vec<String> = Vec::new();
    push_copy(&mut r, "exec");
    push_copy(&mut r, "--sandbox");
    push_copy(&mut r, spec.sandbox.as_str());
    push_copy(&mut r, "--cd");
    push_copy(&mut r, spec.cwd.as_str());
    push_copy(&mut r, "--output-last-message");
    push_copy(&mut r, spec.output_path.as_str());
    push_copy(&mut r, prompt_flag);
    push_copy(&mut r, spec.prompt_path.as_str());
    match &spec.schema_path {
        Some(s) => {
            push_copy(&mut r, "--output-schema");
            push_copy(&mut r, s.as_str());
        },
        None => {},
    }
    if spec.json_output_path.is_some() {
        push_copy(&mut r, "--json");
    }
    let words = split_words(extra_args);
    let ghost head = r@;
    let mut i: usize = 0;
    while i < words.len()
        invariant
            i <= words@.len(),
            strings_view(r@) == strings_view(head) + strings_view(words@).take(i as int),
        decreases words.len() - i,
    {
        push_copy(&mut r, words[i].as_str());
        assert(strings_view(words@).take(i + 1) =~= strings_view(words@).take(i as int).push(words@[i as int]@));
        i += 1;
    }
    assert(strings_view(words@).take(i as int) =~= strings_view(words@));
    r
}

} // verus!
