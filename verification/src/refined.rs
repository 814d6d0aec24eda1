//! The resolved, executable form of a job: one of several execution
//! strategies, each carrying optional I/O endpoints. The endpoint type is a
//! parameter: the surrounding program instantiates it with its file handles,
//! and owns every handle it moves in.

use vstd::prelude::*;
use vstd::string::StringExecFns;
use crate::tee::TeeItem;

verus! {

/// A refined job. `External` carries the not-yet-spawned process
/// descriptor as plain values; `Cat` fans several sources into one stream
/// and has no stderr; `Tee` fans out up to two streams through its copiers.
pub enum RefinedJob<F> {
    External { program: String, args: Vec<String>, stdin: Option<F>, stdout: Option<F>, stderr: Option<F> },
    Builtin { name: String, args: Vec<String>, stdin: Option<F>, stdout: Option<F>, stderr: Option<F> },
    Function { name: String, args: Vec<String>, stdin: Option<F>, stdout: Option<F>, stderr: Option<F> },
    Cat { sources: Vec<F>, stdin: Option<F>, stdout: Option<F> },
    Tee { items: (Option<TeeItem>, Option<TeeItem>), stdin: Option<F>, stdout: Option<F>, stderr: Option<F> },
}

impl<F> RefinedJob<F> {
    /// An in-process procedure, with no endpoints attached yet.
    pub fn builtin(name: String, args: Vec<String>) -> (r: RefinedJob<F>)
        ensures
            r == (RefinedJob::Builtin {
                name,
                args,
                stdin: None::<F>,
                stdout: None::<F>,
                stderr: None::<F>,
            }),
    {
        RefinedJob::Builtin { name, args, stdin: None, stdout: None, stderr: None }
    }

    /// A user-defined function, with no endpoints attached yet.
    pub fn function(name: String, args: Vec<String>) -> (r: RefinedJob<F>)
        ensures
            r == (RefinedJob::Function {
                name,
                args,
                stdin: None::<F>,
                stdout: None::<F>,
                stderr: None::<F>,
            }),
    {
        RefinedJob::Function { name, args, stdin: None, stdout: None, stderr: None }
    }

    /// Fan-in from several sources.
    pub fn cat(sources: Vec<F>) -> (r: RefinedJob<F>)
        ensures
            r == (RefinedJob::Cat { sources, stdin: None::<F>, stdout: None::<F> }),
    {
        RefinedJob::Cat { sources, stdin: None, stdout: None }
    }

    /// Fan-out through one copier per output stream.
    pub fn tee(tee_out: Option<TeeItem>, tee_err: Option<TeeItem>) -> (r: RefinedJob<F>)
        ensures
            r == (RefinedJob::Tee {
                items: (tee_out, tee_err),
                stdin: None::<F>,
                stdout: None::<F>,
                stderr: None::<F>,
            }),
    {
        RefinedJob::Tee { items: (tee_out, tee_err), stdin: None, stdout: None, stderr: None }
    }

    /// Attach an owned handle as standard input. For `Cat` this overwrites
    /// the single shared input slot used only when no source list was given.
    pub fn stdin(&mut self, file: F)
        ensures
            match *old(self) {
                RefinedJob::External { program, args, stdout, stderr, .. } => *final(self)
                    == (RefinedJob::External { program, args, stdin: Some(file), stdout, stderr }),
                RefinedJob::Builtin { name, args, stdout, stderr, .. } => *final(self)
                    == (RefinedJob::Builtin { name, args, stdin: Some(file), stdout, stderr }),
                RefinedJob::Function { name, args, stdout, stderr, .. } => *final(self)
                    == (RefinedJob::Function { name, args, stdin: Some(file), stdout, stderr }),
                RefinedJob::Cat { sources, stdout, .. } => *final(self) == (RefinedJob::Cat {
                    sources,
                    stdin: Some(file),
                    stdout,
                }),
                RefinedJob::Tee { items, stdout, stderr, .. } => *final(self) == (RefinedJob::Tee {
                    items,
                    stdin: Some(file),
                    stdout,
                    stderr,
                }),
            },
    {
        match self {
            RefinedJob::External { stdin, .. } => {
                *stdin = Some(file);
            },
            RefinedJob::Builtin { stdin, .. } => {
                *stdin = Some(file);
            },
            RefinedJob::Function { stdin, .. } => {
                *stdin = Some(file);
            },
            RefinedJob::Cat { stdin, .. } => {
                *stdin = Some(file);
            },
            RefinedJob::Tee { stdin, .. } => {
                *stdin = Some(file);
            },
        }
    }

    /// Attach an owned handle as standard output.
    pub fn stdout(&mut self, file: F)
        ensures
            match *old(self) {
                RefinedJob::External { program, args, stdin, stderr, .. } => *final(self)
                    == (RefinedJob::External { program, args, stdin, stdout: Some(file), stderr }),
                RefinedJob::Builtin { name, args, stdin, stderr, .. } => *final(self)
                    == (RefinedJob::Builtin { name, args, stdin, stdout: Some(file), stderr }),
                RefinedJob::Function { name, args, stdin, stderr, .. } => *final(self)
                    == (RefinedJob::Function { name, args, stdin, stdout: Some(file), stderr }),
                RefinedJob::Cat { sources, stdin, .. } => *final(self) == (RefinedJob::Cat {
                    sources,
                    stdin,
                    stdout: Some(file),
                }),
                RefinedJob::Tee { items, stdin, stderr, .. } => *final(self) == (RefinedJob::Tee {
                    items,
                    stdin,
                    stdout: Some(file),
                    stderr,
                }),
            },
    {
        match self {
            RefinedJob::External { stdout, .. } => {
                *stdout = Some(file);
            },
            RefinedJob::Builtin { stdout, .. } => {
                *stdout = Some(file);
            },
            RefinedJob::Function { stdout, .. } => {
                *stdout = Some(file);
            },
            RefinedJob::Cat { stdout, .. } => {
                *stdout = Some(file);
            },
            RefinedJob::Tee { stdout, .. } => {
                *stdout = Some(file);
            },
        }
    }

    /// Attach an owned handle as standard error. Fan-in has no stderr: for
    /// `Cat` the handle is dropped, as a deliberate exception.
    pub fn stderr(&mut self, file: F)
        ensures
            match *old(self) {
                RefinedJob::External { program, args, stdin, stdout, .. } => *final(self)
                    == (RefinedJob::External { program, args, stdin, stdout, stderr: Some(file) }),
                RefinedJob::Builtin { name, args, stdin, stdout, .. } => *final(self)
                    == (RefinedJob::Builtin { name, args, stdin, stdout, stderr: Some(file) }),
                RefinedJob::Function { name, args, stdin, stdout, .. } => *final(self)
                    == (RefinedJob::Function { name, args, stdin, stdout, stderr: Some(file) }),
                RefinedJob::Cat { .. } => *final(self) == *old(self),
                RefinedJob::Tee { items, stdin, stdout, .. } => *final(self) == (RefinedJob::Tee {
                    items,
                    stdin,
                    stdout,
                    stderr: Some(file),
                }),
            },
    {
        match self {
            RefinedJob::External { stderr, .. } => {
                *stderr = Some(file);
            },
            RefinedJob::Builtin { stderr, .. } => {
                *stderr = Some(file);
            },
            RefinedJob::Function { stderr, .. } => {
                *stderr = Some(file);
            },
            RefinedJob::Cat { .. } => {},
            RefinedJob::Tee { stderr, .. } => {
                *stderr = Some(file);
            },
        }
    }

    /// A short description for job-control listings: the command or builtin
    /// name, or a fixed tag for the fan-in and fan-out helpers.
    pub fn short(&self) -> (r: String)
        ensures
            r@ == short_spec(self),
    {
        match self {
            RefinedJob::External { program, .. } => program.clone(),
            RefinedJob::Builtin { name, .. } => name.clone(),
            RefinedJob::Function { name, .. } => name.clone(),
            RefinedJob::Cat { .. } => String::from_str("multi-input"),
            RefinedJob::Tee { .. } => String::from_str("multi-output"),
        }
    }

    /// A long description: the command and its arguments, space-separated;
    /// empty for the fan-in and fan-out helpers, which carry no command.
    pub fn long(&self) -> (r: String)
        ensures
            r@ == long_spec(self),
    {
        match self {
            RefinedJob::External { program, args, .. } => {
                let mut out = program.clone();
                join_onto(&mut out, args);
                out
            },
            RefinedJob::Builtin { args, .. } => join_args(args),
            RefinedJob::Function { args, .. } => join_args(args),
            _ => String::new(),
        }
    }
}

/// The short description of a refined job.
pub open spec fn short_spec<F>(r: &RefinedJob<F>) -> Seq<char> {
    match r {
        RefinedJob::External { program, .. } => program@,
        RefinedJob::Builtin { name, .. } => name@,
        RefinedJob::Function { name, .. } => name@,
        RefinedJob::Cat { .. } => "multi-input"@,
        RefinedJob::Tee { .. } => "multi-output"@,
    }
}

/// `head` followed by one space and one argument for each argument in turn.
pub open spec fn joined(head: Seq<char>, args: Seq<Seq<char>>) -> Seq<char>
    decreases args.len(),
{
    if args.len() == 0 {
        head
    } else {
        joined(head, args.drop_last()) + seq![' '] + args.last()
    }
}

/// The long description of a refined job.
pub open spec fn long_spec<F>(r: &RefinedJob<F>) -> Seq<char> {
    match r {
        RefinedJob::External { program, args, .. } => joined(program@, args.deep_view()),
        RefinedJob::Builtin { args, .. } => join_spec(args.deep_view()),
        RefinedJob::Function { args, .. } => join_spec(args.deep_view()),
        _ => Seq::empty(),
    }
}

/// The arguments joined with single spaces; empty for no arguments.
pub open spec fn join_spec(args: Seq<Seq<char>>) -> Seq<char> {
    if args.len() == 0 {
        Seq::empty()
    } else {
        joined(args[0], args.drop_first())
    }
}

/// Append ` arg` for each argument onto `out`.
fn join_onto(out: &mut String, args: &Vec<String>)
    ensures
        final(out)@ == joined(old(out)@, args.deep_view()),
{
    let ghost head = out@;
    let ghost avs = args.deep_view();
    let mut i: usize = 0;
    while i < args.len()
        invariant
            i <= args@.len(),
            avs == args.deep_view(),
            avs.len() == args@.len(),
            out@ == joined(head, avs.take(i as int)),
        decreases args@.len() - i,
    {
        out.append(" ");
        out.append(args[i].as_str());
        proof {
            reveal_strlit(" ");
            assert(avs.take(i + 1).drop_last() =~= avs.take(i as int));
            assert(avs.take(i + 1).last() == args@[i as int]@);
            assert(" "@ =~= seq![' ']);
            assert(out@ =~= joined(head, avs.take(i + 1)));
        }
        i = i + 1;
    }
    proof {
        assert(avs.take(avs.len() as int) =~= avs);
    }
}

/// The arguments joined with single spaces.
fn join_args(args: &Vec<String>) -> (r: String)
    ensures
        r@ == join_spec(args.deep_view()),
{
    if args.len() == 0 {
        String::new()
    } else {
        let mut out = args[0].clone();
        let rest = &mut out;
        let ghost avs = args.deep_view();
        let mut i: usize = 1;
        while i < args.len()
            invariant
                1 <= i <= args@.len(),
                avs == args.deep_view(),
                avs.len() == args@.len(),
                avs.len() >= 1,
                rest@ == joined(avs[0], avs.subrange(1, i as int)),
            decreases args@.len() - i,
        {
            rest.append(" ");
            rest.append(args[i].as_str());
            proof {
                reveal_strlit(" ");
                assert(avs.subrange(1, i + 1).drop_last() =~= avs.subrange(1, i as int));
                assert(avs.subrange(1, i + 1).last() == args@[i as int]@);
                assert(" "@ =~= seq![' ']);
                assert(rest@ =~= joined(avs[0], avs.subrange(1, i + 1)));
            }
            i = i + 1;
        }
        proof {
            assert(avs.subrange(1, avs.len() as int) =~= avs.drop_first());
        }
        out
    }
}

} // verus!
