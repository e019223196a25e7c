//! Profiles of the example workload.

use vstd::prelude::*;

use super::text::{push_all, same, texts};

verus! {

/// What a command line asks for.
pub enum Plan {
    /// The compiler is to be run with these arguments.
    Build(Vec<String>),
    /// The compiler is to be run with these arguments, which also records a
    /// heap profile.
    Heap(Vec<String>),
    /// The compiler is to be run with these arguments, which also records a
    /// flame graph.
    FlameGraph(Vec<String>),
    /// The compiler is to be run with the first arguments, and the sampling
    /// profiler on the example with the others.
    Samples(Vec<String>, Vec<String>),
    /// There is no such command.
    Unknown(String),
}

/// The workload that a command line names.
pub open spec fn mode_argument(rest: Seq<Seq<char>>) -> Seq<char> {
    if rest.len() > 0 {
        rest[0]
    } else {
        "all"@
    }
}

/// The arguments that build the example.
pub open spec fn build_arguments() -> Seq<Seq<char>> {
    seq!["build"@, "--profile"@, "profiling"@, "--example"@, "profile"@]
}

/// The arguments that record a heap profile.
pub open spec fn heap_arguments(mode: Seq<char>) -> Seq<Seq<char>> {
    seq![
        "run"@,
        "--profile"@,
        "profiling"@,
        "--features"@,
        "dhat-heap"@,
        "--example"@,
        "profile"@,
        "--"@,
        mode,
    ]
}

/// The arguments that record a flame graph.
pub open spec fn flame_graph_arguments(mode: Seq<char>) -> Seq<Seq<char>> {
    seq!["flamegraph"@, "--profile"@, "profiling"@, "--example"@, "profile"@, "--"@, mode]
}

/// Whether a plan is what a command line asks for.
pub open spec fn is_plan(args: Seq<Seq<char>>, plan: Plan) -> bool {
    let command = if args.len() > 0 {
        args[0]
    } else {
        "samply"@
    };
    let rest = if args.len() > 0 {
        args.skip(1)
    } else {
        Seq::empty()
    };
    if command == "build"@ {
        plan matches Plan::Build(a) && texts(a@) == build_arguments()
    } else if command == "dhat"@ {
        plan matches Plan::Heap(a) && texts(a@) == heap_arguments(mode_argument(rest))
    } else if command == "flamegraph"@ {
        plan matches Plan::FlameGraph(a) && texts(a@) == flame_graph_arguments(mode_argument(rest))
    } else if command == "samply"@ {
        plan matches Plan::Samples(a, b) && texts(a@) == build_arguments() && texts(b@) == rest
    } else {
        plan matches Plan::Unknown(name) && name@ == command
    }
}

/// The arguments that build the example.
pub fn build() -> (r: Vec<String>)
    ensures
        texts(r@) == build_arguments(),
{
    let mut r: Vec<String> = Vec::new();
    let fixed: [&str; 5] = ["build", "--profile", "profiling", "--example", "profile"];
    push_all(&mut r, fixed.as_slice());
    proof {
        assert(texts(r@) =~= build_arguments());
    }
    r
}

/// What a command line asks for.
pub fn plan(args: &[String]) -> (r: Plan)
    ensures
        is_plan(texts(args@), r),
{
    let mut rest: Vec<String> = Vec::new();
    let mut i: usize = 1;
    while i < args.len()
        invariant
            1 <= i,
            args@.len() >= 1 ==> i <= args@.len(),
            args@.len() < 1 ==> i == 1,
            rest@.len() == i - 1,
            forall|k: int| 0 <= k < rest@.len() ==> (#[trigger] rest@[k])@ == args@[k + 1]@,
        decreases args@.len() - i,
    {
        rest.push(args[i].clone());
        i = i + 1;
    }
    let ghost others = if args@.len() > 0 {
        texts(args@).skip(1)
    } else {
        Seq::empty()
    };
    proof {
        assert(texts(rest@) =~= others);
    }
    let command: &str = if args.len() > 0 {
        args[0].as_str()
    } else {
        "samply"
    };
    let mode: &str = if rest.len() > 0 {
        rest[0].as_str()
    } else {
        "all"
    };
    assert(mode@ == mode_argument(others));
    if same(command, "build") {
        Plan::Build(build())
    } else if same(command, "dhat") {
        let mut r: Vec<String> = Vec::new();
        let fixed: [&str; 9] = [
            "run",
            "--profile",
            "profiling",
            "--features",
            "dhat-heap",
            "--example",
            "profile",
            "--",
            mode,
        ];
        push_all(&mut r, fixed.as_slice());
        proof {
            assert(texts(r@) =~= heap_arguments(mode@));
        }
        Plan::Heap(r)
    } else if same(command, "flamegraph") {
        let mut r: Vec<String> = Vec::new();
        let fixed: [&str; 7] = [
            "flamegraph",
            "--profile",
            "profiling",
            "--example",
            "profile",
            "--",
            mode,
        ];
        push_all(&mut r, fixed.as_slice());
        proof {
            assert(texts(r@) =~= flame_graph_arguments(mode@));
        }
        Plan::FlameGraph(r)
    } else if same(command, "samply") {
        Plan::Samples(build(), rest)
    } else {
        Plan::Unknown(command.to_owned())
    }
}

} // verus!
