//! The job model: one statement's command name, its ordered argument list
//! and its sequencing relation to the next job, plus the expansion step that
//! replaces every argument with its expansion results.
//!
//! Word expansion itself (globs, variables, substitutions) and history
//! storage are outside collaborators: a caller asks for the expansion
//! requests, resolves each one, and hands the results back to [`Job::expand`].

use vstd::prelude::*;
use vstd::string::StringExecFns;

verus! {

/// Which stream a pipe carries to the next job.
#[derive(Debug, PartialEq, Eq, Clone, Copy)]
pub enum RedirectFrom {
    Stdout,
    Stderr,
    Both,
}

/// The sequencing relation between a job and the next one.
#[derive(Debug, PartialEq, Eq, Clone, Copy)]
pub enum JobKind {
    And,
    Background,
    Last,
    Or,
    Pipe(RedirectFrom),
}

/// A history back-reference found in an argument.
#[derive(Debug, PartialEq, Eq, Clone, Copy)]
pub enum Operation {
    /// `!$`: the last word of the last command.
    LastArg,
    /// `!^`: the first argument of the last command.
    FirstArg,
    /// `!0`: the command name of the last command.
    Command,
    /// `!*`: all arguments of the last command, without the command.
    NoCommand,
    /// `!!`: the whole last command.
    All,
}

/// One statement's command name, arguments and sequencing kind. The command
/// name is the first argument, captured once at construction and never
/// re-derived.
#[derive(Debug, PartialEq, Eq, Clone)]
pub struct Job {
    pub command: String,
    pub args: Vec<String>,
    pub kind: JobKind,
}

/// What the classification of one argument says: either one of the five
/// fixed history back-reference tokens, or an ordinary word for the Word
/// Expander.
pub open spec fn classify_spec(arg: Seq<char>) -> Option<Operation> {
    if arg == "!!"@ {
        Some(Operation::All)
    } else if arg == "!$"@ {
        Some(Operation::LastArg)
    } else if arg == "!0"@ {
        Some(Operation::Command)
    } else if arg == "!^"@ {
        Some(Operation::FirstArg)
    } else if arg == "!*"@ {
        Some(Operation::NoCommand)
    } else {
        None
    }
}

/// Classify one argument against the five history back-reference tokens.
pub fn classify(arg: &String) -> (r: Option<Operation>)
    ensures
        r == classify_spec(arg@),
{
    if arg.eq(&String::from_str("!!")) {
        Some(Operation::All)
    } else if arg.eq(&String::from_str("!$")) {
        Some(Operation::LastArg)
    } else if arg.eq(&String::from_str("!0")) {
        Some(Operation::Command)
    } else if arg.eq(&String::from_str("!^")) {
        Some(Operation::FirstArg)
    } else if arg.eq(&String::from_str("!*")) {
        Some(Operation::NoCommand)
    } else {
        None
    }
}

/// The slot an expansion result fills: a result with no words becomes a
/// single empty string, so that no argument slot is ever silently deleted.
pub open spec fn slot(r: Seq<Seq<char>>) -> Seq<Seq<char>> {
    if r.len() == 0 {
        seq![Seq::<char>::empty()]
    } else {
        r
    }
}

/// The first `i` argument slots after expansion: the concatenation of the
/// slots of the first `i` results.
pub open spec fn expanded_prefix(rs: Seq<Seq<Seq<char>>>, i: int) -> Seq<Seq<char>>
    decreases i,
{
    if i <= 0 {
        Seq::empty()
    } else {
        expanded_prefix(rs, i - 1) + slot(rs[i - 1])
    }
}

/// The whole argument list after expansion.
pub open spec fn expanded_args(rs: Seq<Seq<Seq<char>>>) -> Seq<Seq<char>> {
    expanded_prefix(rs, rs.len() as int)
}

impl Job {
    /// A job for one parsed statement: the command name is the first
    /// argument, copied once here.
    pub fn new(args: Vec<String>, kind: JobKind) -> (r: Job)
        requires
            args@.len() > 0,
        ensures
            r.command@ == args@[0]@,
            r.args == args,
            r.kind == kind,
    {
        let command = args[0].clone();
        Job { command, args, kind }
    }

    /// The expansion request for each argument, in order: a history
    /// back-reference for the five fixed tokens, an ordinary word otherwise.
    pub fn expansion_requests(&self) -> (r: Vec<Option<Operation>>)
        ensures
            r@.len() == self.args@.len(),
            forall|i: int|
                0 <= i < r@.len() ==> r@[i] == classify_spec(#[trigger] self.args@[i]@),
    {
        let mut out: Vec<Option<Operation>> = Vec::new();
        let mut i: usize = 0;
        while i < self.args.len()
            invariant
                i <= self.args@.len(),
                out@.len() == i as int,
                forall|j: int|
                    0 <= j < i as int ==> out@[j] == classify_spec(#[trigger] self.args@[j]@),
            decreases self.args@.len() - i,
        {
            out.push(classify(&self.args[i]));
            i = i + 1;
        }
        out
    }

    /// Replace the argument list with the expansion results, one slot per
    /// result word and a single empty string for a result with no words.
    /// The command name and the sequencing kind are untouched.
    pub fn expand(&mut self, results: &Vec<Vec<String>>)
        requires
            results@.len() == old(self).args@.len(),
        ensures
            final(self).command == old(self).command,
            final(self).kind == old(self).kind,
            final(self).args.deep_view() == expanded_args(results.deep_view()),
    {
        let ghost rs = results.deep_view();
        let mut out: Vec<String> = Vec::new();
        let mut i: usize = 0;
        while i < results.len()
            invariant
                i <= results@.len(),
                rs == results.deep_view(),
                rs.len() == results@.len(),
                out.deep_view() == expanded_prefix(rs, i as int),
            decreases results@.len() - i,
        {
            let r = &results[i];
            if r.len() == 0 {
                out.push(String::new());
                proof {
                    assert(rs[i as int] =~= results@[i as int].deep_view());
                    assert(out.deep_view() =~~= expanded_prefix(rs, i + 1));
                }
            } else {
                let mut j: usize = 0;
                while j < r.len()
                    invariant
                        j <= r@.len(),
                        r == &results@[i as int],
                        i < rs.len(),
                        rs == results.deep_view(),
                        rs.len() == results@.len(),
                        out.deep_view() == expanded_prefix(rs, i as int) + rs[i as int].take(
                            j as int,
                        ),
                    decreases r@.len() - j,
                {
                    let ghost out0 = out.deep_view();
                    out.push(r[j].clone());
                    proof {
                        assert(rs[i as int] =~= results@[i as int].deep_view());
                        assert(results@[i as int].deep_view()[j as int] == results@[
                            i as int
                        ]@[j as int]@);
                        assert(out@[out@.len() - 1]@ == results@[i as int]@[j as int]@);
                        assert(out.deep_view() =~= out0.push(rs[i as int][j as int]));
                        assert(rs[i as int].take(j + 1) =~= rs[i as int].take(j as int).push(
                            rs[i as int][j as int],
                        ));
                        assert(out.deep_view() =~= expanded_prefix(rs, i as int) + rs[
                            i as int
                        ].take(j + 1));
                    }
                    j = j + 1;
                }
                proof {
                    assert(rs[i as int] =~= results@[i as int].deep_view());
                    assert(rs[i as int].take(rs[i as int].len() as int) =~= rs[i as int]);
                    assert(out.deep_view() =~~= expanded_prefix(rs, i + 1));
                }
            }
            i = i + 1;
        }
        self.args = out;
    }
}

/// The word of the most recent history line that a `!$`, `!^` or `!0`
/// back-reference names, with the whole line as the fallback when the line
/// has too few words.
pub fn history_word(op: &Operation, words: &Vec<String>, buffer: &String) -> (r: String)
    ensures
        r@ == history_word_spec(*op, words.deep_view(), buffer@),
{
    match op {
        Operation::LastArg => {
            if words.len() > 0 {
                words[words.len() - 1].clone()
            } else {
                buffer.clone()
            }
        },
        Operation::FirstArg => {
            if words.len() > 1 {
                words[1].clone()
            } else {
                buffer.clone()
            }
        },
        Operation::Command => {
            if words.len() > 0 {
                words[0].clone()
            } else {
                buffer.clone()
            }
        },
        _ => buffer.clone(),
    }
}

/// What `history_word` returns: the last word, the second word or the first
/// word of the line, or the whole line when that word does not exist (and
/// for the whole-line operations).
pub open spec fn history_word_spec(op: Operation, words: Seq<Seq<char>>, buffer: Seq<char>) -> Seq<
    char,
> {
    match op {
        Operation::LastArg => if words.len() > 0 {
            words.last()
        } else {
            buffer
        },
        Operation::FirstArg => if words.len() > 1 {
            words[1]
        } else {
            buffer
        },
        Operation::Command => if words.len() > 0 {
            words[0]
        } else {
            buffer
        },
        _ => buffer,
    }
}

/// Expansion never deletes an argument slot: every argument contributes at
/// least one slot, so the expanded list is never shorter than the original.
pub proof fn lemma_expand_no_lost_slots(rs: Seq<Seq<Seq<char>>>)
    ensures
        expanded_args(rs).len() >= rs.len(),
{
    lemma_expanded_prefix_len(rs, rs.len() as int);
}

proof fn lemma_expanded_prefix_len(rs: Seq<Seq<Seq<char>>>, i: int)
    requires
        0 <= i <= rs.len(),
    ensures
        expanded_prefix(rs, i).len() >= i,
    decreases i,
{
    if i > 0 {
        lemma_expanded_prefix_len(rs, i - 1);
    }
}

proof fn lemma_expanded_prefix_len_eq(rs: Seq<Seq<Seq<char>>>, i: int)
    requires
        0 <= i <= rs.len(),
        forall|j: int| 0 <= j < i ==> (#[trigger] rs[j]).len() == 1,
    ensures
        expanded_prefix(rs, i).len() == i,
    decreases i,
{
    if i > 0 {
        lemma_expanded_prefix_len_eq(rs, i - 1);
        assert(rs[i - 1].len() == 1);
        assert(slot(rs[i - 1]).len() == 1);
        assert(expanded_prefix(rs, i) == expanded_prefix(rs, i - 1) + slot(rs[i - 1]));
    } else {
        assert(expanded_prefix(rs, i) == Seq::<Seq<char>>::empty());
    }
}

/// When every expansion yields exactly one word, the number of argument
/// slots does not change.
pub proof fn lemma_expand_keeps_slot_count(rs: Seq<Seq<Seq<char>>>)
    requires
        forall|j: int| 0 <= j < rs.len() ==> (#[trigger] rs[j]).len() == 1,
    ensures
        expanded_args(rs).len() == rs.len(),
{
    lemma_expanded_prefix_len_eq(rs, rs.len() as int);
}

/// Expanding an already-literal argument list leaves it unchanged: when
/// each result is the argument itself (or nothing, for an argument that is
/// the empty string), the expanded list equals the original one.
pub proof fn lemma_expand_literal_identity(args: Seq<Seq<char>>, rs: Seq<Seq<Seq<char>>>)
    requires
        rs.len() == args.len(),
        forall|j: int|
            0 <= j < rs.len() ==> (#[trigger] rs[j]) =~= seq![args[j]] || (args[j].len() == 0
                && rs[j].len() == 0),
    ensures
        expanded_args(rs) == args,
{
    lemma_expand_literal_prefix(args, rs, rs.len() as int);
    assert(expanded_args(rs) =~= args);
}

proof fn lemma_expand_literal_prefix(args: Seq<Seq<char>>, rs: Seq<Seq<Seq<char>>>, i: int)
    requires
        rs.len() == args.len(),
        0 <= i <= rs.len(),
        forall|j: int|
            0 <= j < rs.len() ==> (#[trigger] rs[j]) =~= seq![args[j]] || (args[j].len() == 0
                && rs[j].len() == 0),
    ensures
        expanded_prefix(rs, i) =~= args.take(i),
    decreases i,
{
    if i > 0 {
        lemma_expand_literal_prefix(args, rs, i - 1);
        if rs[i - 1].len() == 0 {
            assert(args[i - 1].len() == 0);
            assert(slot(rs[i - 1])[0] =~= args[i - 1]);
        } else {
            assert(rs[i - 1] =~= seq![args[i - 1]]);
            assert(slot(rs[i - 1]) == rs[i - 1]);
            assert(slot(rs[i - 1])[0] == args[i - 1]);
        }
        assert(slot(rs[i - 1]).len() == 1);
        assert(expanded_prefix(rs, i) == expanded_prefix(rs, i - 1) + slot(rs[i - 1]));
        assert(expanded_prefix(rs, i) =~~= args.take(i));
    } else {
        assert(expanded_prefix(rs, 0) == Seq::<Seq<char>>::empty());
        assert(expanded_prefix(rs, 0) =~= args.take(0));
    }
}

} // verus!
