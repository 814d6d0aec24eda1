use ion_core::job::{classify, history_word, Job, JobKind, Operation};
use ion_core::refined::RefinedJob;
use ion_core::tee::{Stream, TeeItem};

fn arr(args: &[&str]) -> Vec<String> {
    args.iter().map(|s| s.to_string()).collect()
}

#[test]
fn preserve_empty_arg() {
    // a literal argument list with an empty string comes back unchanged: the
    // expander yields nothing for "" and the word itself for the others
    let job = Job::new(arr(&["rename", "", "0", "a"]), JobKind::Last);
    let mut expanded = job.clone();
    let results: Vec<Vec<String>> = job
        .args
        .iter()
        .map(|a| if a.is_empty() { vec![] } else { vec![a.clone()] })
        .collect();
    expanded.expand(&results);
    assert_eq!(job, expanded);
}

#[test]
fn new_captures_command() {
    let job = Job::new(arr(&["cat", "a", "b"]), JobKind::Background);
    assert_eq!(job.command, "cat");
    assert_eq!(job.args, arr(&["cat", "a", "b"]));
    assert_eq!(job.kind, JobKind::Background);
}

#[test]
fn classify_history_tokens() {
    assert_eq!(classify(&"!!".to_string()), Some(Operation::All));
    assert_eq!(classify(&"!$".to_string()), Some(Operation::LastArg));
    assert_eq!(classify(&"!0".to_string()), Some(Operation::Command));
    assert_eq!(classify(&"!^".to_string()), Some(Operation::FirstArg));
    assert_eq!(classify(&"!*".to_string()), Some(Operation::NoCommand));
    assert_eq!(classify(&"!?".to_string()), None);
    assert_eq!(classify(&"echo".to_string()), None);
}

#[test]
fn expansion_requests_per_arg() {
    let job = Job::new(arr(&["echo", "!!", "x"]), JobKind::Last);
    let reqs = job.expansion_requests();
    assert_eq!(reqs, vec![None, Some(Operation::All), None]);
}

#[test]
fn expand_replaces_slots() {
    // a slot with several words grows, an empty expansion leaves one empty
    // string, and the slot count never shrinks
    let mut job = Job::new(arr(&["echo", "@args", "gone"]), JobKind::Last);
    let results = vec![arr(&["echo"]), arr(&["one", "two"]), arr(&[])];
    job.expand(&results);
    assert_eq!(job.args, arr(&["echo", "one", "two", ""]));
    assert_eq!(job.command, "echo");
    assert!(job.args.len() >= 3);
}

#[test]
fn history_word_selection() {
    let words = arr(&["cargo", "build", "--release"]);
    let line = "cargo build --release".to_string();
    assert_eq!(history_word(&Operation::LastArg, &words, &line), "--release");
    assert_eq!(history_word(&Operation::FirstArg, &words, &line), "build");
    assert_eq!(history_word(&Operation::Command, &words, &line), "cargo");
    let none: Vec<String> = vec![];
    assert_eq!(history_word(&Operation::LastArg, &none, &line), line);
}

#[test]
fn tee_copies_every_byte_to_every_sink() {
    // one source, two sinks; one sink takes only 1 byte per write, the other
    // 3: both still receive all N bytes, byte for byte
    let payload = b"the quick brown fox jumps over the lazy dog".to_vec();
    let source = Stream::source(payload.clone());
    let sinks = vec![Stream::sink(1), Stream::sink(3)];
    let mut tee = TeeItem::new(Some(source), sinks);
    tee.write_to_all(None);
    assert_eq!(tee.sinks.len(), 2);
    for sink in &tee.sinks {
        assert_eq!(sink.data, payload);
    }
}

#[test]
fn tee_extra_sink_and_partial_source() {
    let mut source = Stream::source(b"abcdef".to_vec());
    source.pos = 2; // the first two bytes were already consumed
    let mut tee = TeeItem::new(Some(source), vec![Stream::sink(2)]);
    tee.write_to_all(Some(Stream::sink(5)));
    assert_eq!(tee.sinks.len(), 2);
    assert_eq!(tee.sinks[0].data, b"cdef".to_vec());
    assert_eq!(tee.sinks[1].data, b"cdef".to_vec());
}

#[test]
fn refined_job_descriptions() {
    let b: RefinedJob<u32> = RefinedJob::builtin("cd".to_string(), arr(&["cd", "/tmp"]));
    assert_eq!(b.short(), "cd");
    assert_eq!(b.long(), "cd /tmp");

    let f: RefinedJob<u32> = RefinedJob::function("greet".to_string(), arr(&["greet"]));
    assert_eq!(f.short(), "greet");
    assert_eq!(f.long(), "greet");

    let c: RefinedJob<u32> = RefinedJob::cat(vec![1, 2]);
    assert_eq!(c.short(), "multi-input");
    assert_eq!(c.long(), "");

    let t: RefinedJob<u32> = RefinedJob::tee(None, None);
    assert_eq!(t.short(), "multi-output");
    assert_eq!(t.long(), "");
}

#[test]
fn refined_job_endpoints() {
    let mut b: RefinedJob<u32> = RefinedJob::builtin("cd".to_string(), arr(&["cd"]));
    b.stdin(7);
    b.stdout(8);
    b.stderr(9);
    match b {
        RefinedJob::Builtin { stdin, stdout, stderr, .. } => {
            assert_eq!(stdin, Some(7));
            assert_eq!(stdout, Some(8));
            assert_eq!(stderr, Some(9));
        }
        _ => unreachable!(),
    }

    // fan-in has no stderr: the handle is dropped
    let mut c: RefinedJob<u32> = RefinedJob::cat(vec![]);
    c.stderr(9);
    match c {
        RefinedJob::Cat { stdin, stdout, .. } => {
            assert_eq!(stdin, None);
            assert_eq!(stdout, None);
        }
        _ => unreachable!(),
    }
}
