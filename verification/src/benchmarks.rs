//! The benchmarks on which checkpoint and restore is evaluated.

use vstd::prelude::*;
use crate::reading;
use crate::types;

verus! {

/// A single benchmark.
#[derive(Debug, Clone)]
pub struct BenchmarkInfo {
    /// The name of the computation.
    pub name: String,
    /// The index of the kernel function.
    pub func_index: u32,
}

impl View for BenchmarkInfo {
    type V = (Seq<char>, u32);

    open spec fn view(&self) -> (Seq<char>, u32) {
        (self.name@, self.func_index)
    }
}

impl BenchmarkInfo {
    /// Creates the benchmark with this name and kernel function.
    fn named(name: &str, func_index: u32) -> (info: BenchmarkInfo)
        ensures
            info@ == (name@, func_index),
    {
        BenchmarkInfo { name: name.to_owned(), func_index }
    }
}

/// The list of benchmarks to evaluate.
pub struct Benchmarks {
    pub benchmarks: Vec<BenchmarkInfo>,
}

/// The names of the benchmarks and the indices of their kernel functions.
pub open spec fn benchmark_list() -> Seq<(Seq<char>, u32)> {
    seq![
        ("2mm"@, 12u32),
        ("3mm"@, 12u32),
        ("adi"@, 12u32),
        ("atax"@, 12u32),
        ("bicg"@, 12u32),
        ("cholesky"@, 12u32),
        ("correlation"@, 12u32),
        ("covariance"@, 12u32),
        ("deriche"@, 12u32),
        ("doitgen"@, 10u32),
        ("durbin"@, 12u32),
        ("fdtd-2d"@, 12u32),
        ("floyd-warshall"@, 12u32),
        ("gemm"@, 12u32),
        ("gemver"@, 12u32),
        ("gesummv"@, 12u32),
        ("gramschmidt"@, 12u32),
        ("heat-3d"@, 12u32),
        ("jacobi-1d"@, 12u32),
        ("jacobi-2d"@, 12u32),
        ("lu"@, 12u32),
        ("ludcmp"@, 12u32),
        ("mvt"@, 12u32),
        ("nussinov"@, 12u32),
        ("seidel-2d"@, 12u32),
        ("symm"@, 12u32),
        ("syrk"@, 12u32),
        ("trisolv"@, 12u32),
        ("trmm"@, 12u32),
    ]
}

impl Benchmarks {
    /// Lists all the benchmarks.
    pub fn new() -> (list: Benchmarks)
        ensures
            types::views(list.benchmarks@) == benchmark_list(),
    {
        let benchmarks: Vec<BenchmarkInfo> = vec![
            BenchmarkInfo::named("2mm", 12),
            BenchmarkInfo::named("3mm", 12),
            BenchmarkInfo::named("adi", 12),
            BenchmarkInfo::named("atax", 12),
            BenchmarkInfo::named("bicg", 12),
            BenchmarkInfo::named("cholesky", 12),
            BenchmarkInfo::named("correlation", 12),
            BenchmarkInfo::named("covariance", 12),
            BenchmarkInfo::named("deriche", 12),
            BenchmarkInfo::named("doitgen", 10),
            BenchmarkInfo::named("durbin", 12),
            BenchmarkInfo::named("fdtd-2d", 12),
            BenchmarkInfo::named("floyd-warshall", 12),
            BenchmarkInfo::named("gemm", 12),
            BenchmarkInfo::named("gemver", 12),
            BenchmarkInfo::named("gesummv", 12),
            BenchmarkInfo::named("gramschmidt", 12),
            BenchmarkInfo::named("heat-3d", 12),
            BenchmarkInfo::named("jacobi-1d", 12),
            BenchmarkInfo::named("jacobi-2d", 12),
            BenchmarkInfo::named("lu", 12),
            BenchmarkInfo::named("ludcmp", 12),
            BenchmarkInfo::named("mvt", 12),
            BenchmarkInfo::named("nussinov", 12),
            BenchmarkInfo::named("seidel-2d", 12),
            BenchmarkInfo::named("symm", 12),
            BenchmarkInfo::named("syrk", 12),
            BenchmarkInfo::named("trisolv", 12),
            BenchmarkInfo::named("trmm", 12),
        ];
        assert(types::views(benchmarks@) =~= benchmark_list());
        Benchmarks { benchmarks }
    }
}

/// All benchmarks have their kernel at index twelve, but for one that has it at ten.
pub proof fn law_kernels(i: int)
    requires
        0 <= i < benchmark_list().len(),
    ensures
        benchmark_list().len() == 29,
        benchmark_list()[i].1 == (if benchmark_list()[i].0 == "doitgen"@ {
            10u32
        } else {
            12u32
        }),
{
    reveal_strlit("2mm");
    reveal_strlit("3mm");
    reveal_strlit("adi");
    reveal_strlit("atax");
    reveal_strlit("bicg");
    reveal_strlit("cholesky");
    reveal_strlit("correlation");
    reveal_strlit("covariance");
    reveal_strlit("deriche");
    reveal_strlit("doitgen");
    reveal_strlit("durbin");
    reveal_strlit("fdtd-2d");
    reveal_strlit("floyd-warshall");
    reveal_strlit("gemm");
    reveal_strlit("gemver");
    reveal_strlit("gesummv");
    reveal_strlit("gramschmidt");
    reveal_strlit("heat-3d");
    reveal_strlit("jacobi-1d");
    reveal_strlit("jacobi-2d");
    reveal_strlit("lu");
    reveal_strlit("ludcmp");
    reveal_strlit("mvt");
    reveal_strlit("nussinov");
    reveal_strlit("seidel-2d");
    reveal_strlit("symm");
    reveal_strlit("syrk");
    reveal_strlit("trisolv");
    reveal_strlit("trmm");
    let name = benchmark_list()[i].0;
    assert(i != 9 ==> name.len() != 7 || name[1] != "doitgen"@[1]);
}

/// The name of a benchmark and a space behind it.
pub open spec fn name_and_space() -> spec_fn((Seq<char>, u32)) -> Seq<char> {
    |info: (Seq<char>, u32)| info.0.push(' ')
}

/// The names of a part of the list, one behind the other.
pub open spec fn names_between(from: int, to: int) -> Seq<char> {
    reading::gathered(benchmark_list().subrange(from, to), name_and_space())
}

/// One more name behind those of a part of the list.
proof fn lemma_one_more_name(from: int, to: int)
    requires
        0 <= from <= to < benchmark_list().len(),
    ensures
        names_between(from, to + 1) == names_between(from, to) + benchmark_list()[to].0.push(' '),
        names_between(from, from) == Seq::<char>::empty(),
{
    let part = benchmark_list().subrange(from, to + 1);
    assert(part.drop_last() =~= benchmark_list().subrange(from, to));
    assert(benchmark_list().subrange(from, from) =~= Seq::empty());
}

/// The names, one behind the other.
pub proof fn law_names()
    ensures
        names_between(0, 10)
            == "2mm 3mm adi atax bicg cholesky correlation covariance deriche doitgen "@,
        names_between(10, 20)
            == "durbin fdtd-2d floyd-warshall gemm gemver gesummv gramschmidt heat-3d jacobi-1d jacobi-2d "@,
        names_between(20, 29)
            == "lu ludcmp mvt nussinov seidel-2d symm syrk trisolv trmm "@,
{
    reveal_strlit("2mm");
    reveal_strlit("3mm");
    reveal_strlit("adi");
    reveal_strlit("atax");
    reveal_strlit("bicg");
    reveal_strlit("cholesky");
    reveal_strlit("correlation");
    reveal_strlit("covariance");
    reveal_strlit("deriche");
    reveal_strlit("doitgen");
    reveal_strlit("durbin");
    reveal_strlit("fdtd-2d");
    reveal_strlit("floyd-warshall");
    reveal_strlit("gemm");
    reveal_strlit("gemver");
    reveal_strlit("gesummv");
    reveal_strlit("gramschmidt");
    reveal_strlit("heat-3d");
    reveal_strlit("jacobi-1d");
    reveal_strlit("jacobi-2d");
    reveal_strlit("lu");
    reveal_strlit("ludcmp");
    reveal_strlit("mvt");
    reveal_strlit("nussinov");
    reveal_strlit("seidel-2d");
    reveal_strlit("symm");
    reveal_strlit("syrk");
    reveal_strlit("trisolv");
    reveal_strlit("trmm");
    reveal_strlit("2mm 3mm adi atax bicg cholesky correlation covariance deriche doitgen ");
    reveal_strlit("durbin fdtd-2d floyd-warshall gemm gemver gesummv gramschmidt heat-3d jacobi-1d jacobi-2d ");
    reveal_strlit("lu ludcmp mvt nussinov seidel-2d symm syrk trisolv trmm ");
    lemma_one_more_name(0, 0);
    lemma_one_more_name(0, 1);
    lemma_one_more_name(0, 2);
    lemma_one_more_name(0, 3);
    lemma_one_more_name(0, 4);
    lemma_one_more_name(0, 5);
    lemma_one_more_name(0, 6);
    lemma_one_more_name(0, 7);
    lemma_one_more_name(0, 8);
    lemma_one_more_name(0, 9);
    assert(names_between(0, 10)
        =~= "2mm 3mm adi atax bicg cholesky correlation covariance deriche doitgen "@);
    lemma_one_more_name(10, 10);
    lemma_one_more_name(10, 11);
    lemma_one_more_name(10, 12);
    lemma_one_more_name(10, 13);
    lemma_one_more_name(10, 14);
    lemma_one_more_name(10, 15);
    lemma_one_more_name(10, 16);
    lemma_one_more_name(10, 17);
    lemma_one_more_name(10, 18);
    lemma_one_more_name(10, 19);
    assert(names_between(10, 20)
        =~= "durbin fdtd-2d floyd-warshall gemm gemver gesummv gramschmidt heat-3d jacobi-1d jacobi-2d "@);
    lemma_one_more_name(20, 20);
    lemma_one_more_name(20, 21);
    lemma_one_more_name(20, 22);
    lemma_one_more_name(20, 23);
    lemma_one_more_name(20, 24);
    lemma_one_more_name(20, 25);
    lemma_one_more_name(20, 26);
    lemma_one_more_name(20, 27);
    lemma_one_more_name(20, 28);
    assert(names_between(20, 29)
        =~= "lu ludcmp mvt nussinov seidel-2d symm syrk trisolv trmm "@);
}

} // verus!
