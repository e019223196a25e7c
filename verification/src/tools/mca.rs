//! Analysis of the machine code of the kernels.
//!
//! A kernel is compiled for a target, and the machine code is either printed or
//! handed to the scheduling model of a processor.

use vstd::prelude::*;
use vstd::string::StringExecFns;

use super::text::{joined, pad, padded, push_all, same, strip_prefix, texts};

verus! {

/// A kernel that can be analysed.
pub struct Kernel {
    /// The name by which it is chosen.
    pub name: &'static str,
    /// The symbol of the function.
    pub symbol: &'static str,
    /// What it computes.
    pub description: &'static str,
}

/// A processor for which a kernel can be analysed.
pub struct Cpu {
    /// The name by which it is chosen.
    pub name: &'static str,
    /// The target triple.
    pub triple: &'static str,
    /// The processor that code is generated for.
    pub target_cpu: &'static str,
    /// The processor whose scheduling model is used.
    pub mcpu: &'static str,
}

/// The name, the symbol and the description of every kernel, by name.
pub open spec fn kernel_table() -> Seq<(Seq<char>, Seq<char>, Seq<char>)> {
    seq![
        (
            "mul"@,
            "<mlkem_selkie::algebraic::poly::TqElement as core::ops::arith::Mul>::mul"@,
            "Pointwise base multiply of two NTT reprs (128 degree-1 products mod X^2-γ)"@,
        ),
        (
            "ntt"@,
            "mlkem_selkie::algebraic::poly::RqElement::ntt"@,
            "Forward NTT (Rq → Tq), Cooley-Tukey butterflies with a final Barrett reduce"@,
        ),
        (
            "ntt_inverse"@,
            "mlkem_selkie::algebraic::poly::TqElement::ntt_inverse"@,
            "Inverse NTT (Tq → Rq), Gentleman-Sande butterflies + f=1441 scale"@,
        ),
        (
            "sample_cbd"@,
            "mlkem_selkie::sampling::<impl mlkem_selkie::algebraic::poly::RqElement>::sample_cbd"@,
            "SampleCBD_η: word-parallel centered-binomial sampling from PRF output"@,
        ),
        (
            "sample_ntt_x4"@,
            "mlkem_selkie::sampling::<impl mlkem_selkie::algebraic::poly::TqElement>::sample_ntt_x4"@,
            "SampleNTT ×4: rejection-sample 4 Tq streams (public, variable-time)"@,
        ),
    ]
}

/// The name, the target triple, the code generation target and the scheduling
/// model of every processor, by name.
pub open spec fn cpu_table() -> Seq<(Seq<char>, Seq<char>, Seq<char>, Seq<char>)> {
    let apple = "aarch64-apple-darwin"@;
    let linux = "x86_64-unknown-linux-gnu"@;
    seq![
        ("apple-m1"@, apple, "apple-m1"@, "apple-m1"@),
        ("apple-m2"@, apple, "apple-m2"@, "apple-m2"@),
        ("apple-m3"@, apple, "apple-m3"@, "apple-m3"@),
        ("cascadelake"@, linux, "cascadelake"@, "cascadelake"@),
        ("skylake"@, linux, "skylake"@, "skylake"@),
        ("znver3"@, linux, "znver3"@, "znver3"@),
        ("znver4"@, linux, "znver4"@, "znver4"@),
    ]
}

impl View for Kernel {
    type V = (Seq<char>, Seq<char>, Seq<char>);

    open spec fn view(&self) -> (Seq<char>, Seq<char>, Seq<char>) {
        (self.name@, self.symbol@, self.description@)
    }
}

impl View for Cpu {
    type V = (Seq<char>, Seq<char>, Seq<char>, Seq<char>);

    open spec fn view(&self) -> (Seq<char>, Seq<char>, Seq<char>, Seq<char>) {
        (self.name@, self.triple@, self.target_cpu@, self.mcpu@)
    }
}

/// The kernels, by name.
pub fn kernels() -> (r: Vec<Kernel>)
    ensures
        Seq::new(r@.len(), |i: int| r@[i]@) == kernel_table(),
{
    let r: Vec<Kernel> = vec![
        Kernel {
            name: "mul",
            symbol: "<mlkem_selkie::algebraic::poly::TqElement as core::ops::arith::Mul>::mul",
            description: "Pointwise base multiply of two NTT reprs (128 degree-1 products mod X^2-γ)",
        },
        Kernel {
            name: "ntt",
            symbol: "mlkem_selkie::algebraic::poly::RqElement::ntt",
            description: "Forward NTT (Rq → Tq), Cooley-Tukey butterflies with a final Barrett reduce",
        },
        Kernel {
            name: "ntt_inverse",
            symbol: "mlkem_selkie::algebraic::poly::TqElement::ntt_inverse",
            description: "Inverse NTT (Tq → Rq), Gentleman-Sande butterflies + f=1441 scale",
        },
        Kernel {
            name: "sample_cbd",
            symbol: "mlkem_selkie::sampling::<impl mlkem_selkie::algebraic::poly::RqElement>::sample_cbd",
            description: "SampleCBD_η: word-parallel centered-binomial sampling from PRF output",
        },
        Kernel {
            name: "sample_ntt_x4",
            symbol: "mlkem_selkie::sampling::<impl mlkem_selkie::algebraic::poly::TqElement>::sample_ntt_x4",
            description: "SampleNTT ×4: rejection-sample 4 Tq streams (public, variable-time)",
        },
    ];
    proof {
        assert(Seq::new(r@.len(), |i: int| r@[i]@) =~= kernel_table());
    }
    r
}

/// A processor whose three names are the same.
fn cpu(triple: &'static str, name: &'static str) -> (r: Cpu)
    ensures
        r@ == (name@, triple@, name@, name@),
{
    Cpu { name, triple, target_cpu: name, mcpu: name }
}

/// The processors, by name.
pub fn cpus() -> (r: Vec<Cpu>)
    ensures
        Seq::new(r@.len(), |i: int| r@[i]@) == cpu_table(),
{
    let apple: &'static str = "aarch64-apple-darwin";
    let linux: &'static str = "x86_64-unknown-linux-gnu";
    let r: Vec<Cpu> = vec![
        cpu(apple, "apple-m1"),
        cpu(apple, "apple-m2"),
        cpu(apple, "apple-m3"),
        cpu(linux, "cascadelake"),
        cpu(linux, "skylake"),
        cpu(linux, "znver3"),
        cpu(linux, "znver4"),
    ];
    proof {
        assert(Seq::new(r@.len(), |i: int| r@[i]@) =~= cpu_table());
    }
    r
}

/// The first position from `from` on at which a list of names holds a name.
pub open spec fn find_name(names: Seq<Seq<char>>, name: Seq<char>, from: int) -> Option<int>
    decreases names.len() - from,
{
    if from >= names.len() {
        None
    } else if names[from] == name {
        Some(from)
    } else {
        find_name(names, name, from + 1)
    }
}

/// The position of a kernel in the table.
pub open spec fn find_kernel(name: Seq<char>) -> Option<int> {
    find_name(Seq::new(kernel_table().len(), |i: int| kernel_table()[i].0), name, 0)
}

/// The position of a processor in the table.
pub open spec fn find_cpu(name: Seq<char>) -> Option<int> {
    find_name(Seq::new(cpu_table().len(), |i: int| cpu_table()[i].0), name, 0)
}

/// A position that is found lies in the list.
proof fn lemma_found(names: Seq<Seq<char>>, name: Seq<char>, from: int)
    requires
        0 <= from,
    ensures
        find_name(names, name, from) matches Some(i) ==> from <= i < names.len() && names[i] == name,
    decreases names.len() - from,
{
    if from < names.len() && names[from] != name {
        lemma_found(names, name, from + 1);
    }
}

/// The kernel of a name, if there is one.
pub fn resolve_kernel(name: &str) -> (r: Option<Kernel>)
    ensures
        match r {
            Some(kernel) => find_kernel(name@) is Some && kernel@ == kernel_table()[find_kernel(
                name@,
            )->0],
            None => find_kernel(name@) is None,
        },
{
    let mut table: Vec<Kernel> = kernels();
    let ghost all = table@;
    let ghost names = Seq::new(kernel_table().len(), |i: int| kernel_table()[i].0);
    let mut i: usize = 0;
    while i < table.len()
        invariant
            i <= table@.len(),
            table@ == all,
            Seq::new(all.len(), |i: int| all[i]@) == kernel_table(),
            names == Seq::new(kernel_table().len(), |i: int| kernel_table()[i].0),
            find_name(names, name@, i as int) == find_name(names, name@, 0),
        decreases table@.len() - i,
    {
        proof {
            assert(Seq::new(all.len(), |i: int| all[i]@)[i as int] == all[i as int]@);
        }
        if same(table[i].name, name) {
            return Some(table.swap_remove(i));
        }
        i = i + 1;
    }
    None
}

/// The processor of a name, if there is one.
pub fn resolve_cpu(name: &str) -> (r: Option<Cpu>)
    ensures
        match r {
            Some(cpu) => find_cpu(name@) is Some && cpu@ == cpu_table()[find_cpu(name@)->0],
            None => find_cpu(name@) is None,
        },
{
    let mut table: Vec<Cpu> = cpus();
    let ghost all = table@;
    let ghost names = Seq::new(cpu_table().len(), |i: int| cpu_table()[i].0);
    let mut i: usize = 0;
    while i < table.len()
        invariant
            i <= table@.len(),
            table@ == all,
            Seq::new(all.len(), |i: int| all[i]@) == cpu_table(),
            names == Seq::new(cpu_table().len(), |i: int| cpu_table()[i].0),
            find_name(names, name@, i as int) == find_name(names, name@, 0),
        decreases table@.len() - i,
    {
        proof {
            assert(Seq::new(all.len(), |i: int| all[i]@)[i as int] == all[i as int]@);
        }
        if same(table[i].name, name) {
            return Some(table.swap_remove(i));
        }
        i = i + 1;
    }
    None
}

/// What is to be analysed, as the command line names it.
pub struct Target {
    /// The name of the kernel.
    pub kernel: String,
    /// The name of the processor.
    pub cpu: String,
    /// The arguments that are passed on.
    pub extra: Vec<String>,
}

/// The kernel that a command line names.
pub open spec fn kernel_argument(args: Seq<Seq<char>>) -> Seq<char> {
    if args.len() > 0 {
        args[0]
    } else {
        "ntt"@
    }
}

/// The processor that a command line names.
pub open spec fn cpu_argument(args: Seq<Seq<char>>) -> Seq<char> {
    if args.len() > 1 {
        args[1]
    } else {
        "apple-m1"@
    }
}

/// The arguments of a command line that are passed on.
pub open spec fn extra_arguments(args: Seq<Seq<char>>) -> Seq<Seq<char>> {
    if args.len() > 2 {
        args.skip(2)
    } else {
        Seq::empty()
    }
}

/// Splits a command line into the kernel, the processor and the arguments that
/// are passed on; the kernel and the processor may be left out.
pub fn parse_target(args: &[String]) -> (r: Target)
    ensures
        r.kernel@ == kernel_argument(texts(args@)),
        r.cpu@ == cpu_argument(texts(args@)),
        texts(r.extra@) == extra_arguments(texts(args@)),
{
    let kernel: String = if args.len() > 0 {
        args[0].clone()
    } else {
        "ntt".to_owned()
    };
    let cpu: String = if args.len() > 1 {
        args[1].clone()
    } else {
        "apple-m1".to_owned()
    };
    let mut extra: Vec<String> = Vec::new();
    let mut i: usize = 2;
    proof {
        assert(texts(extra@) =~= Seq::empty());
    }
    while i < args.len()
        invariant
            2 <= i,
            args@.len() >= 2 ==> i <= args@.len(),
            args@.len() < 2 ==> i == 2,
            extra@.len() == i - 2,
            forall|k: int| 0 <= k < extra@.len() ==> (#[trigger] extra@[k])@ == args@[k + 2]@,
        decreases args@.len() - i,
    {
        extra.push(args[i].clone());
        i = i + 1;
    }
    proof {
        assert(texts(extra@) =~= extra_arguments(texts(args@)));
    }
    Target { kernel, cpu, extra }
}

/// The argument that hands an argument of the command line to the scheduling
/// model.
pub open spec fn model_argument(arg: Seq<char>) -> Seq<char> {
    if arg == "--timeline"@ {
        "--mca-arg=-timeline"@
    } else if "--iterations="@.is_prefix_of(arg) {
        "--mca-arg=-iterations="@ + arg.skip("--iterations="@.len() as int)
    } else if "--mca="@.is_prefix_of(arg) {
        "--mca-arg="@ + arg.skip("--mca="@.len() as int)
    } else {
        "--mca-arg="@ + arg
    }
}

/// The argument that hands an argument of the command line to the scheduling
/// model.
pub fn model_arg(arg: &str) -> (r: String)
    ensures
        r@ == model_argument(arg@),
{
    if same(arg, "--timeline") {
        return "--mca-arg=-timeline".to_owned();
    }
    if let Some(n) = strip_prefix(arg, "--iterations=") {
        proof {
            assert(arg@.skip("--iterations="@.len() as int) =~= n@);
        }
        return joined("--mca-arg=-iterations=", n);
    }
    if let Some(rest) = strip_prefix(arg, "--mca=") {
        proof {
            assert(arg@.skip("--mca="@.len() as int) =~= rest@);
        }
        return joined("--mca-arg=", rest);
    }
    joined("--mca-arg=", arg)
}

/// The arguments that name the target of a compilation.
pub open spec fn target_arguments(triple: Seq<char>, target_cpu: Seq<char>) -> Seq<Seq<char>> {
    seq![
        "asm"@,
        "--lib"@,
        "--target"@,
        triple,
        "--target-cpu"@,
        target_cpu,
        "--features"@,
        "expose-internals"@,
    ]
}

/// The arguments of an analysis.
pub open spec fn analysis_arguments(
    cpu: (Seq<char>, Seq<char>, Seq<char>, Seq<char>),
    symbol: Seq<char>,
    extra: Seq<Seq<char>>,
) -> Seq<Seq<char>> {
    target_arguments(cpu.1, cpu.2) + seq![
        "--mca"@,
        "--simplify"@,
        "--mca-arg="@ + "-bottleneck-analysis"@,
        "--mca-arg="@ + "-resource-pressure=true"@,
        "--mca-arg="@ + "-iterations=1"@,
        "--mca-arg=-mcpu="@ + cpu.3,
    ] + Seq::new(extra.len(), |i: int| model_argument(extra[i])) + seq![symbol]
}

/// The arguments of a listing of the machine code.
pub open spec fn listing_arguments(
    cpu: (Seq<char>, Seq<char>, Seq<char>, Seq<char>),
    symbol: Seq<char>,
    extra: Seq<Seq<char>>,
) -> Seq<Seq<char>> {
    target_arguments(cpu.1, cpu.2) + seq!["--asm"@, "--simplify"@] + extra + seq![symbol]
}

/// The compiler flags that keep the vector instructions of a processor in use,
/// where they have to be given.
pub open spec fn flags_spec(triple: Seq<char>, target_cpu: Seq<char>) -> Option<Seq<char>> {
    if "x86_64"@.is_prefix_of(triple) {
        Some("-C target-cpu="@ + target_cpu + " -C target-feature=+avx2"@)
    } else {
        None
    }
}

/// Whether these are the compiler flags for a processor.
pub open spec fn are_flags(
    cpu: (Seq<char>, Seq<char>, Seq<char>, Seq<char>),
    flags: Option<String>,
) -> bool {
    match flags {
        Some(flags) => flags_spec(cpu.1, cpu.2) == Some(flags@),
        None => flags_spec(cpu.1, cpu.2) is None,
    }
}

/// The compiler flags that keep the vector instructions of a processor in use,
/// where they have to be given.
pub fn rust_flags(cpu: &Cpu) -> (r: Option<String>)
    ensures
        are_flags(cpu@, r),
{
    if strip_prefix(cpu.triple, "x86_64").is_some() {
        let mut flags: String = joined("-C target-cpu=", cpu.target_cpu);
        flags.append(" -C target-feature=+avx2");
        Some(flags)
    } else {
        None
    }
}

/// The arguments of an analysis of a kernel for a processor.
pub fn run_mca(cpu: &Cpu, symbol: &str, extra: &Vec<String>) -> (r: Vec<String>)
    ensures
        texts(r@) == analysis_arguments(cpu@, symbol@, texts(extra@)),
{
    let mut r: Vec<String> = Vec::new();
    let fixed: [&str; 10] = [
        "asm",
        "--lib",
        "--target",
        cpu.triple,
        "--target-cpu",
        cpu.target_cpu,
        "--features",
        "expose-internals",
        "--mca",
        "--simplify",
    ];
    push_all(&mut r, fixed.as_slice());
    let ghost named = texts(r@);
    assert(named =~= target_arguments(cpu@.1, cpu@.2) + seq!["--mca"@, "--simplify"@]);
    r.push(joined("--mca-arg=", "-bottleneck-analysis"));
    r.push(joined("--mca-arg=", "-resource-pressure=true"));
    r.push(joined("--mca-arg=", "-iterations=1"));
    r.push(joined("--mca-arg=-mcpu=", cpu.mcpu));
    let ghost head = texts(r@);
    let ghost start = target_arguments(cpu@.1, cpu@.2) + seq![
        "--mca"@,
        "--simplify"@,
        "--mca-arg="@ + "-bottleneck-analysis"@,
        "--mca-arg="@ + "-resource-pressure=true"@,
        "--mca-arg="@ + "-iterations=1"@,
        "--mca-arg=-mcpu="@ + cpu@.3,
    ];
    assert(head =~= named.push("--mca-arg="@ + "-bottleneck-analysis"@).push(
        "--mca-arg="@ + "-resource-pressure=true"@,
    ).push("--mca-arg="@ + "-iterations=1"@).push("--mca-arg=-mcpu="@ + cpu@.3));
    assert(head =~= start);
    let ghost mapped = Seq::new(extra@.len(), |i: int| model_argument(extra@[i]@));
    let mut i: usize = 0;
    proof {
        assert(head + mapped.take(0) =~= head);
    }
    while i < extra.len()
        invariant
            i <= extra@.len(),
            mapped == Seq::new(extra@.len(), |i: int| model_argument(extra@[i]@)),
            texts(r@) == head + mapped.take(i as int),
        decreases extra@.len() - i,
    {
        let ghost before = r@;
        r.push(model_arg(extra[i].as_str()));
        i = i + 1;
        proof {
            assert(texts(r@) =~= texts(before).push(mapped[i - 1]));
            assert(mapped.take(i as int) =~= mapped.take(i - 1).push(mapped[i - 1]));
            assert(texts(r@) =~= head + mapped.take(i as int));
        }
    }
    r.push(symbol.to_owned());
    proof {
        assert(mapped.take(extra@.len() as int) =~= mapped);
        assert(mapped =~= Seq::new(
            texts(extra@).len(),
            |i: int| model_argument(texts(extra@)[i]),
        ));
        assert(texts(r@) =~= start + mapped + seq![symbol@]);
    }
    r
}

/// The line that announces an analysis.
pub open spec fn announcement_spec(
    cpu: (Seq<char>, Seq<char>, Seq<char>, Seq<char>),
    symbol: Seq<char>,
) -> Seq<char> {
    "$ cargo asm --lib --target "@ + cpu.1 + " --target-cpu "@ + cpu.2
        + " --features expose-internals \\\n\t--mca [-mcpu="@ + cpu.3 + "] "@ + symbol
}

/// The line that announces an analysis.
pub fn announcement(cpu: &Cpu, symbol: &str) -> (r: String)
    ensures
        r@ == announcement_spec(cpu@, symbol@),
{
    let mut r: String = joined("$ cargo asm --lib --target ", cpu.triple);
    r.append(" --target-cpu ");
    r.append(cpu.target_cpu);
    r.append(" --features expose-internals \\\n\t--mca [-mcpu=");
    r.append(cpu.mcpu);
    r.append("] ");
    r.append(symbol);
    r
}

/// The arguments of a listing of the machine code of a kernel for a processor.
pub fn run_asm(cpu: &Cpu, symbol: &str, extra: &Vec<String>) -> (r: Vec<String>)
    ensures
        texts(r@) == listing_arguments(cpu@, symbol@, texts(extra@)),
{
    let mut r: Vec<String> = Vec::new();
    let fixed: [&str; 10] = [
        "asm",
        "--lib",
        "--target",
        cpu.triple,
        "--target-cpu",
        cpu.target_cpu,
        "--features",
        "expose-internals",
        "--asm",
        "--simplify",
    ];
    push_all(&mut r, fixed.as_slice());
    let ghost head = texts(r@);
    let ghost start = target_arguments(cpu@.1, cpu@.2) + seq!["--asm"@, "--simplify"@];
    assert(head =~= start);
    let ghost all = texts(extra@);
    let mut i: usize = 0;
    proof {
        assert(head + all.take(0) =~= head);
    }
    while i < extra.len()
        invariant
            i <= extra@.len(),
            all == texts(extra@),
            texts(r@) == head + all.take(i as int),
        decreases extra@.len() - i,
    {
        let ghost before = r@;
        r.push(extra[i].clone());
        i = i + 1;
        proof {
            assert(texts(r@) =~= texts(before).push(all[i - 1]));
            assert(all.take(i as int) =~= all.take(i - 1).push(all[i - 1]));
            assert(texts(r@) =~= head + all.take(i as int));
        }
    }
    r.push(symbol.to_owned());
    proof {
        assert(all.take(extra@.len() as int) =~= all);
        assert(texts(r@) =~= start + all + seq![symbol@]);
    }
    r
}

/// The lines that describe a kernel.
pub open spec fn kernel_lines(kernel: (Seq<char>, Seq<char>, Seq<char>)) -> Seq<Seq<char>> {
    seq![
        "  "@ + padded(kernel.0, 16) + " "@ + kernel.2,
        "  "@ + padded(""@, 16) + " → "@ + kernel.1,
    ]
}

/// The line that describes a processor.
pub open spec fn cpu_line(cpu: (Seq<char>, Seq<char>, Seq<char>, Seq<char>)) -> Seq<char> {
    "  "@ + padded(cpu.0, 16) + " "@ + padded(cpu.1, 28) + " "@ + padded(cpu.2, 14) + " "@ + cpu.3
}

/// The lines that describe the first `n` kernels.
pub open spec fn kernel_list(n: nat) -> Seq<Seq<char>>
    decreases n,
{
    if n == 0 {
        seq!["kernels:"@]
    } else {
        kernel_list((n - 1) as nat) + kernel_lines(kernel_table()[n - 1])
    }
}

/// The lines that describe everything that can be chosen.
pub open spec fn list_lines() -> Seq<Seq<char>> {
    kernel_list(5) + seq![
        ""@,
        "CPU targets  (`triple` / `-C target-cpu` / `llvm-mca -mcpu`):"@,
    ] + Seq::new(7, |i: int| cpu_line(cpu_table()[i]))
}

/// Four texts, one after the other.
fn joined_4(a: &str, b: &str, c: &str, d: &str) -> (r: String)
    ensures
        r@ == a@ + b@ + c@ + d@,
{
    let mut r: String = joined(a, b);
    r.append(c);
    r.append(d);
    r
}

/// The lines that describe everything that can be chosen.
pub fn list() -> (r: Vec<String>)
    ensures
        texts(r@) == list_lines(),
{
    let mut r: Vec<String> = Vec::new();
    r.push("kernels:".to_owned());
    let known: Vec<Kernel> = kernels();
    let ghost table = Seq::new(known@.len(), |i: int| known@[i]@);
    let mut i: usize = 0;
    proof {
        assert(texts(r@) =~= kernel_list(0));
    }
    while i < known.len()
        invariant
            i <= known@.len(),
            table == kernel_table(),
            table == Seq::new(known@.len(), |i: int| known@[i]@),
            texts(r@) == kernel_list(i as nat),
        decreases known@.len() - i,
    {
        let kernel: &Kernel = &known[i];
        let ghost before = r@;
        r.push(joined_4("  ", pad(kernel.name, 16).as_str(), " ", kernel.description));
        r.push(joined_4("  ", pad("", 16).as_str(), " → ", kernel.symbol));
        proof {
            assert(table[i as int] == kernel@);
            assert(texts(r@) =~= texts(before) + kernel_lines(kernel_table()[i as int]));
            assert(kernel_list((i + 1) as nat) == kernel_list(i as nat) + kernel_lines(
                kernel_table()[i as int],
            ));
        }
        i = i + 1;
    }
    assert(table.len() == kernel_table().len());
    r.push("".to_owned());
    r.push("CPU targets  (`triple` / `-C target-cpu` / `llvm-mca -mcpu`):".to_owned());
    let ghost head = texts(r@);
    proof {
        assert(head =~= kernel_list(5) + seq![
            ""@,
            "CPU targets  (`triple` / `-C target-cpu` / `llvm-mca -mcpu`):"@,
        ]);
    }
    let known: Vec<Cpu> = cpus();
    let ghost table = Seq::new(known@.len(), |i: int| known@[i]@);
    assert(table.len() == cpu_table().len());
    let ghost lines = Seq::new(7, |i: int| cpu_line(cpu_table()[i]));
    let mut i: usize = 0;
    proof {
        assert(head + lines.take(0) =~= head);
    }
    while i < known.len()
        invariant
            i <= known@.len(),
            known@.len() == 7,
            table == cpu_table(),
            table == Seq::new(known@.len(), |i: int| known@[i]@),
            lines == Seq::new(7, |i: int| cpu_line(cpu_table()[i])),
            texts(r@) == head + lines.take(i as int),
        decreases known@.len() - i,
    {
        let cpu: &Cpu = &known[i];
        let ghost before = r@;
        let mut line: String = joined_4(
            "  ",
            pad(cpu.name, 16).as_str(),
            " ",
            pad(cpu.triple, 28).as_str(),
        );
        line.append(" ");
        line.append(pad(cpu.target_cpu, 14).as_str());
        line.append(" ");
        line.append(cpu.mcpu);
        r.push(line);
        i = i + 1;
        proof {
            assert(table[i - 1] == cpu@);
            assert(texts(r@) =~= texts(before).push(lines[i - 1]));
            assert(lines.take(i as int) =~= lines.take(i - 1).push(lines[i - 1]));
            assert(texts(r@) =~= head + lines.take(i as int));
        }
    }
    proof {
        assert(lines.take(7) =~= lines);
    }
    r
}

/// What a command line asks for.
pub enum Plan {
    /// The usage is to be printed.
    Help,
    /// These lines are to be printed.
    List(Vec<String>),
    /// The compiler is to be run with these arguments and flags, for a listing.
    Listing(Vec<String>, Option<String>),
    /// The line is to be printed, and the compiler to be run with these
    /// arguments and flags, for an analysis.
    Analysis(String, Vec<String>, Option<String>),
    /// There is no kernel of this name.
    UnknownKernel(String),
    /// There is no processor of this name.
    UnknownCpu(String),
}

/// Whether a plan is what a command line asks for that names a target: the
/// analysis of the kernel, or the listing of its machine code.
pub open spec fn is_target_plan(args: Seq<Seq<char>>, analyse: bool, plan: Plan) -> bool {
    let kernel = find_kernel(kernel_argument(args));
    let cpu = find_cpu(cpu_argument(args));
    if kernel is None {
        plan matches Plan::UnknownKernel(name) && name@ == kernel_argument(args)
    } else if cpu is None {
        plan matches Plan::UnknownCpu(name) && name@ == cpu_argument(args)
    } else {
        let symbol = kernel_table()[kernel->0].1;
        let entry = cpu_table()[cpu->0];
        if analyse {
            &&& plan matches Plan::Analysis(line, arguments, flags)
            &&& line@ == announcement_spec(entry, symbol)
            &&& texts(arguments@) == analysis_arguments(entry, symbol, extra_arguments(args))
            &&& are_flags(entry, flags)
        } else {
            &&& plan matches Plan::Listing(arguments, flags)
            &&& texts(arguments@) == listing_arguments(entry, symbol, extra_arguments(args))
            &&& are_flags(entry, flags)
        }
    }
}

/// Whether a plan is what a command line asks for.
pub open spec fn is_plan(args: Seq<Seq<char>>, plan: Plan) -> bool {
    if args.len() == 0 || args[0] == "help"@ || args[0] == "-h"@ || args[0] == "--help"@ {
        plan is Help
    } else if args[0] == "list"@ {
        plan matches Plan::List(lines) && texts(lines@) == list_lines()
    } else if args[0] == "asm"@ {
        is_target_plan(args.skip(1), false, plan)
    } else {
        is_target_plan(args, true, plan)
    }
}

/// What a command line asks for that names a target.
fn target_plan(args: &[String], analyse: bool) -> (r: Plan)
    ensures
        is_target_plan(texts(args@), analyse, r),
{
    let target: Target = parse_target(args);
    let kernel: Kernel = match resolve_kernel(target.kernel.as_str()) {
        Some(kernel) => kernel,
        None => {
            return Plan::UnknownKernel(target.kernel);
        },
    };
    let cpu: Cpu = match resolve_cpu(target.cpu.as_str()) {
        Some(cpu) => cpu,
        None => {
            return Plan::UnknownCpu(target.cpu);
        },
    };
    let flags: Option<String> = rust_flags(&cpu);
    if analyse {
        Plan::Analysis(
            announcement(&cpu, kernel.symbol),
            run_mca(&cpu, kernel.symbol, &target.extra),
            flags,
        )
    } else {
        Plan::Listing(run_asm(&cpu, kernel.symbol, &target.extra), flags)
    }
}

/// What a command line asks for.
pub fn plan(args: &[String]) -> (r: Plan)
    ensures
        is_plan(texts(args@), r),
{
    if args.len() == 0 {
        return Plan::Help;
    }
    let command: &str = args[0].as_str();
    if same(command, "help") || same(command, "-h") || same(command, "--help") {
        Plan::Help
    } else if same(command, "list") {
        Plan::List(list())
    } else if same(command, "asm") {
        let rest: &[String] = vstd::slice::slice_subrange(args, 1, args.len());
        proof {
            assert(texts(rest@) =~= texts(args@).skip(1));
        }
        target_plan(rest, false)
    } else {
        target_plan(args, true)
    }
}

} // verus!
