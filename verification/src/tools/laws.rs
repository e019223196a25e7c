//! What holds of the tables and the command lines of the tools.

use vstd::prelude::*;

use super::mca::{
    analysis_arguments, cpu_argument, cpu_table, extra_arguments, find_name, flags_spec,
    kernel_argument, kernel_table, listing_arguments, model_argument,
};
use super::profile::{flame_graph_arguments, heap_arguments, mode_argument};
use super::text::padded;

verus! {

/// Code is generated for the processor that is named, and its scheduling model
/// is used.
pub proof fn law_cpu_names(i: int)
    requires
        0 <= i < cpu_table().len(),
    ensures
        cpu_table()[i].2 == cpu_table()[i].0,
        cpu_table()[i].3 == cpu_table()[i].0,
{
}

/// The processors whose names start alike share their target.
pub proof fn law_cpu_targets(i: int)
    requires
        0 <= i < cpu_table().len(),
    ensures
        cpu_table()[i].1 == if "apple-"@.is_prefix_of(cpu_table()[i].0) {
            "aarch64-apple-darwin"@
        } else {
            "x86_64-unknown-linux-gnu"@
        },
{
    reveal_strlit("apple-");
    reveal_strlit("apple-m1");
    reveal_strlit("apple-m2");
    reveal_strlit("apple-m3");
    reveal_strlit("cascadelake");
    reveal_strlit("skylake");
    reveal_strlit("znver3");
    reveal_strlit("znver4");
    let name = cpu_table()[i].0;
    if i < 3 {
        assert("apple-"@ =~= name.subrange(0, "apple-"@.len() as int));
    } else if "apple-"@.is_prefix_of(name) {
        assert(name.subrange(0, "apple-"@.len() as int)[0] == 'a');
        assert(name.subrange(0, "apple-"@.len() as int)[1] == 'p');
        assert(name[0] == "apple-"@[0] && name[1] == "apple-"@[1]);
    }
}

/// The symbol of a kernel ends in its name.
pub proof fn law_kernel_symbols(i: int)
    requires
        0 <= i < kernel_table().len(),
    ensures
        ({
            let (name, symbol) = (kernel_table()[i].0, kernel_table()[i].1);
            symbol.len() > name.len() + 2 && symbol.skip(symbol.len() - name.len() - 2) == "::"@
                + name
        }),
{
    reveal_strlit("::");
    reveal_strlit("mul");
    reveal_strlit("<mlkem_selkie::algebraic::poly::TqElement as core::ops::arith::Mul>::mul");
    reveal_strlit("ntt");
    reveal_strlit("mlkem_selkie::algebraic::poly::RqElement::ntt");
    reveal_strlit("ntt_inverse");
    reveal_strlit("mlkem_selkie::algebraic::poly::TqElement::ntt_inverse");
    reveal_strlit("sample_cbd");
    reveal_strlit("mlkem_selkie::sampling::<impl mlkem_selkie::algebraic::poly::RqElement>::sample_cbd");
    reveal_strlit("sample_ntt_x4");
    reveal_strlit("mlkem_selkie::sampling::<impl mlkem_selkie::algebraic::poly::TqElement>::sample_ntt_x4");
    let (name, symbol) = (kernel_table()[i].0, kernel_table()[i].1);
    assert(symbol.skip(symbol.len() - name.len() - 2) =~= "::"@ + name);
}

/// The position that is found is the first one that holds the name, and there
/// is one wherever the list holds the name.
pub proof fn law_find_name(names: Seq<Seq<char>>, name: Seq<char>, from: int)
    requires
        0 <= from,
    ensures
        match find_name(names, name, from) {
            Some(i) => from <= i < names.len() && names[i] == name && forall|k: int|
                from <= k < i ==> #[trigger] names[k] != name,
            None => forall|k: int| from <= k < names.len() ==> #[trigger] names[k] != name,
        },
    decreases names.len() - from,
{
    if from < names.len() && names[from] != name {
        law_find_name(names, name, from + 1);
    }
}

/// The first two arguments of a command line name the kernel and the processor,
/// and the others are passed on.
pub proof fn law_target(kernel: Seq<char>, cpu: Seq<char>, extra: Seq<Seq<char>>)
    ensures
        kernel_argument(seq![kernel, cpu] + extra) == kernel,
        cpu_argument(seq![kernel, cpu] + extra) == cpu,
        extra_arguments(seq![kernel, cpu] + extra) == extra,
        kernel_argument(seq![kernel]) == kernel,
        cpu_argument(seq![kernel]) == cpu_argument(Seq::empty()),
        extra_arguments(seq![kernel]).len() == 0,
{
    assert(extra_arguments(seq![kernel, cpu] + extra) =~= extra);
}

/// The target stands before what is passed on, in order, and the symbol last.
pub proof fn law_arguments(
    cpu: (Seq<char>, Seq<char>, Seq<char>, Seq<char>),
    symbol: Seq<char>,
    extra: Seq<Seq<char>>,
    i: int,
)
    requires
        0 <= i < extra.len(),
    ensures
        ({
            let a = analysis_arguments(cpu, symbol, extra);
            &&& a.len() == extra.len() + 15
            &&& a[2] == "--target"@ && a[3] == cpu.1
            &&& a[4] == "--target-cpu"@ && a[5] == cpu.2
            &&& a[13] == "--mca-arg=-mcpu="@ + cpu.3
            &&& a[14 + i] == model_argument(extra[i])
            &&& a.last() == symbol
        }),
        ({
            let a = listing_arguments(cpu, symbol, extra);
            &&& a.len() == extra.len() + 11
            &&& a[2] == "--target"@ && a[3] == cpu.1
            &&& a[4] == "--target-cpu"@ && a[5] == cpu.2
            &&& a[10 + i] == extra[i]
            &&& a.last() == symbol
        }),
{
}

/// What follows the name of an option is handed to the scheduling model.
pub proof fn law_model_argument(rest: Seq<char>)
    ensures
        model_argument("--iterations="@ + rest) == "--mca-arg=-iterations="@ + rest,
        model_argument("--mca="@ + rest) == "--mca-arg="@ + rest,
        model_argument("-"@ + rest) == "--mca-arg=-"@ + rest || (rest.len() > 0 && rest[0] == '-'),
{
    reveal_strlit("--iterations=");
    reveal_strlit("--mca=");
    reveal_strlit("--timeline");
    reveal_strlit("--mca-arg=");
    reveal_strlit("--mca-arg=-");
    reveal_strlit("-");
    let a = "--iterations="@ + rest;
    assert(a[2] == 'i' && "--timeline"@[2] == 't');
    assert("--iterations="@ =~= a.subrange(0, "--iterations="@.len() as int));
    assert(a.skip("--iterations="@.len() as int) =~= rest);
    let b = "--mca="@ + rest;
    assert(b[2] == 'm' && "--timeline"@[2] == 't' && "--iterations="@[2] == 'i');
    assert("--mca="@ =~= b.subrange(0, "--mca="@.len() as int));
    assert(b.skip("--mca="@.len() as int) =~= rest);
    if !(rest.len() > 0 && rest[0] == '-') {
        let c = "-"@ + rest;
        assert(c.len() > 1 ==> c[1] != '-');
        assert("--timeline"@[1] == '-' && "--iterations="@[1] == '-' && "--mca="@[1] == '-');
        if "--iterations="@.is_prefix_of(c) {
            assert(c.subrange(0, "--iterations="@.len() as int)[1] == '-');
        }
        if "--mca="@.is_prefix_of(c) {
            assert(c.subrange(0, "--mca="@.len() as int)[1] == '-');
        }
        assert("--mca-arg="@ + c =~= "--mca-arg=-"@ + rest);
    }
}

/// Flags are given for the targets whose triple starts with the architecture
/// that needs them, and for no others.
pub proof fn law_flags(rest: Seq<char>, target_cpu: Seq<char>)
    ensures
        flags_spec("x86_64"@ + rest, target_cpu) == Some(
            "-C target-cpu="@ + target_cpu + " -C target-feature=+avx2"@,
        ),
        flags_spec("aarch64"@ + rest, target_cpu) is None,
{
    reveal_strlit("x86_64");
    reveal_strlit("aarch64");
    let a = "x86_64"@ + rest;
    assert("x86_64"@ =~= a.subrange(0, "x86_64"@.len() as int));
    let b = "aarch64"@ + rest;
    assert(b[0] == 'a' && "x86_64"@[0] == 'x');
    if "x86_64"@.is_prefix_of(b) {
        assert(b.subrange(0, "x86_64"@.len() as int)[0] == 'x');
    }
}

/// The workload that a command line names is the last argument of the profiler.
pub proof fn law_workload(mode: Seq<char>, rest: Seq<Seq<char>>)
    ensures
        mode_argument(seq![mode] + rest) == mode,
        heap_arguments(mode).last() == mode,
        flame_graph_arguments(mode).last() == mode,
        heap_arguments(mode)[7] == "--"@,
        flame_graph_arguments(mode)[5] == "--"@,
{
}

/// Padding keeps a text, and adds blanks up to the width.
pub proof fn law_padded(text: Seq<char>, width: nat, i: int)
    requires
        0 <= i < padded(text, width).len(),
    ensures
        padded(text, width).len() == if text.len() < width {
            width
        } else {
            text.len()
        },
        padded(text, width)[i] == if i < text.len() {
            text[i]
        } else {
            ' '
        },
{
}

} // verus!
