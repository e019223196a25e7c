//! The command lines of the tools.

use mlkem_selkie::tools::mca;
use mlkem_selkie::tools::profile;

fn args(list: &[&str]) -> Vec<String> {
    list.iter().map(|s| s.to_string()).collect()
}

/// An analysis with every kind of argument that is passed on.
#[test]
fn analysis_command() {
    let plan = mca::plan(&args(&[
        "mul",
        "znver3",
        "--timeline",
        "--iterations=7",
        "--mca=-x",
        "--all-stats",
    ]));
    let mca::Plan::Analysis(line, arguments, flags) = plan else {
        panic!("not an analysis");
    };
    let symbol = "<mlkem_selkie::algebraic::poly::TqElement as core::ops::arith::Mul>::mul";
    assert_eq!(
        arguments,
        args(&[
            "asm",
            "--lib",
            "--target",
            "x86_64-unknown-linux-gnu",
            "--target-cpu",
            "znver3",
            "--features",
            "expose-internals",
            "--mca",
            "--simplify",
            "--mca-arg=-bottleneck-analysis",
            "--mca-arg=-resource-pressure=true",
            "--mca-arg=-iterations=1",
            "--mca-arg=-mcpu=znver3",
            "--mca-arg=-timeline",
            "--mca-arg=-iterations=7",
            "--mca-arg=-x",
            "--mca-arg=--all-stats",
            symbol,
        ])
    );
    assert_eq!(
        flags.as_deref(),
        Some("-C target-cpu=znver3 -C target-feature=+avx2")
    );
    assert_eq!(
        line,
        format!(
            "$ cargo asm --lib --target x86_64-unknown-linux-gnu --target-cpu znver3 --features expose-internals \\\n\t--mca [-mcpu=znver3] {symbol}"
        )
    );
}

/// A listing with the default processor.
#[test]
fn listing_command() {
    let mca::Plan::Listing(arguments, flags) = mca::plan(&args(&["asm", "ntt"])) else {
        panic!("not a listing");
    };
    assert_eq!(arguments[3], "aarch64-apple-darwin");
    assert_eq!(arguments[5], "apple-m1");
    assert_eq!(arguments[8], "--asm");
    assert_eq!(
        arguments.last().unwrap(),
        "mlkem_selkie::algebraic::poly::RqElement::ntt"
    );
    assert_eq!(flags, None);

    let mca::Plan::Listing(arguments, _) = mca::plan(&args(&["asm", "ntt", "apple-m2", "-v"])) else {
        panic!("not a listing");
    };
    assert_eq!(arguments[10], "-v");
}

/// Commands without a target, and targets that do not exist.
#[test]
fn other_commands() {
    assert!(matches!(mca::plan(&[]), mca::Plan::Help));
    assert!(matches!(mca::plan(&args(&["--help"])), mca::Plan::Help));
    assert!(matches!(mca::plan(&args(&["fft"])), mca::Plan::UnknownKernel(name) if name == "fft"));
    assert!(
        matches!(mca::plan(&args(&["ntt", "z80"])), mca::Plan::UnknownCpu(name) if name == "z80")
    );
    // The kernel is looked up first.
    assert!(
        matches!(mca::plan(&args(&["fft", "z80"])), mca::Plan::UnknownKernel(name) if name == "fft")
    );
}

/// The tables are listed by name, in columns.
#[test]
fn listed_tables() {
    let mca::Plan::List(lines) = mca::plan(&args(&["list"])) else {
        panic!("not a list");
    };
    assert_eq!(lines.len(), 1 + 2 * 5 + 2 + 7);
    assert_eq!(lines[0], "kernels:");
    for (i, kernel) in mca::kernels().iter().enumerate() {
        assert_eq!(lines[1 + 2 * i], format!("  {:<16} {}", kernel.name, kernel.description));
        assert_eq!(lines[2 + 2 * i], format!("  {:16} → {}", "", kernel.symbol));
    }
    for (i, cpu) in mca::cpus().iter().enumerate() {
        assert_eq!(
            lines[13 + i],
            format!(
                "  {:<16} {:<28} {:<14} {}",
                cpu.name, cpu.triple, cpu.target_cpu, cpu.mcpu
            )
        );
    }
}

/// The defaults of a target.
#[test]
fn default_target() {
    let target = mca::parse_target(&[]);
    assert_eq!(target.kernel, "ntt");
    assert_eq!(target.cpu, "apple-m1");
    assert!(target.extra.is_empty());
}

/// The profilers.
#[test]
fn profile_commands() {
    let build = args(&["build", "--profile", "profiling", "--example", "profile"]);
    assert!(
        matches!(profile::plan(&args(&["build"])), profile::Plan::Build(a) if a == build)
    );
    assert!(
        matches!(profile::plan(&[]), profile::Plan::Samples(a, b) if a == build && b.is_empty())
    );
    let rest = args(&["all", "20000"]);
    assert!(matches!(
        profile::plan(&args(&["samply", "all", "20000"])),
        profile::Plan::Samples(a, b) if a == build && b == rest
    ));
    let heap = args(&[
        "run", "--profile", "profiling", "--features", "dhat-heap", "--example", "profile", "--",
        "keygen",
    ]);
    assert!(
        matches!(profile::plan(&args(&["dhat", "keygen"])), profile::Plan::Heap(a) if a == heap)
    );
    let flame = args(&[
        "flamegraph", "--profile", "profiling", "--example", "profile", "--", "all",
    ]);
    assert!(
        matches!(profile::plan(&args(&["flamegraph"])), profile::Plan::FlameGraph(a) if a == flame)
    );
    assert!(
        matches!(profile::plan(&args(&["perf"])), profile::Plan::Unknown(name) if name == "perf")
    );
}
