//! The dispatch policy: from a snapshot of the arguments and of the sysroot
//! override, decide whether to forward to the real compiler, run the wrapped
//! analysis, or exit early, and compute the final argument vector.

use vstd::prelude::*;
use vstd::string::StrSliceExecFns;
use vstd::string::StringExecFns;
use crate::scan::{arg_value, rejects, scan_candidates, str_eq};

verus! {

/// Where the path's basename begins: the index right after the last `'/'`,
/// or `0` when the path has none.
pub open spec fn base_start(a: Seq<char>) -> int
    decreases a.len(),
{
    if a.len() == 0 {
        0
    } else if a.last() == '/' {
        a.len() as int
    } else {
        base_start(a.drop_last())
    }
}

/// The index of the last `'.'` in `a`, or `-1` when it has none.
pub open spec fn last_dot(a: Seq<char>) -> int
    decreases a.len(),
{
    if a.len() == 0 {
        -1
    } else if a.last() == '.' {
        a.len() - 1
    } else {
        last_dot(a.drop_last())
    }
}

/// A file name without its extension: the part before the last `'.'`, or
/// the whole name when it has no `'.'` past its first character (a name
/// that is only a dot-prefixed hidden file keeps its dot).
pub open spec fn stem_of(name: Seq<char>) -> Seq<char> {
    if last_dot(name) > 0 {
        name.take(last_dot(name))
    } else {
        name
    }
}

/// The file stem of a `'/'`-separated path: its basename without the
/// extension.
pub open spec fn spec_file_stem(a: Seq<char>) -> Seq<char> {
    stem_of(a.skip(base_start(a)))
}

/// The file stem of a path, for the wrapper-mode check.
pub fn file_stem(a: &str) -> (r: &str)
    ensures
        r@ == spec_file_stem(a@),
{
    let n = a.unicode_len();
    let mut i: usize = 0;
    let mut bs: usize = 0;
    while i < n
        invariant
            n == a@.len(),
            i <= n,
            bs <= i,
            bs == base_start(a@.take(i as int)),
        decreases n - i,
    {
        proof {
            assert(a@.take(i as int + 1).drop_last() =~= a@.take(i as int));
            assert(a@.take(i as int + 1).last() == a@[i as int]);
        }
        if a.get_char(i) == '/' {
            bs = i + 1;
        }
        i += 1;
    }
    proof {
        assert(a@.take(n as int) =~= a@);
    }
    let name = a.substring_char(bs, n);
    proof {
        assert(name@ == a@.skip(base_start(a@)));
    }
    let m = name.unicode_len();
    let mut j: usize = 0;
    let mut dot: usize = 0;
    let mut has_dot: bool = false;
    while j < m
        invariant
            m == name@.len(),
            j <= m,
            has_dot ==> dot < j,
            if has_dot {
                dot as int == last_dot(name@.take(j as int))
            } else {
                last_dot(name@.take(j as int)) == -1
            },
        decreases m - j,
    {
        proof {
            assert(name@.take(j as int + 1).drop_last() =~= name@.take(j as int));
            assert(name@.take(j as int + 1).last() == name@[j as int]);
        }
        if name.get_char(j) == '.' {
            dot = j;
            has_dot = true;
        }
        j += 1;
    }
    proof {
        assert(name@.take(m as int) =~= name@);
    }
    if has_dot && dot > 0 {
        name.substring_char(0, dot)
    } else {
        name
    }
}

/// The flag that names an explicit toolchain root.
pub open spec fn sysroot_flag() -> Seq<char> {
    "--sysroot"@
}

/// The passthrough marker: forward the remaining arguments to the real
/// compiler unmodified.
pub open spec fn rustc_marker() -> Seq<char> {
    "--rustc"@
}

/// The real compiler's conventional name, written into the program slot when
/// forwarding and looked for in wrapper-mode detection.
pub open spec fn compiler_name() -> Seq<char> {
    "rustc"@
}

pub open spec fn version_flag() -> Seq<char> {
    "--version"@
}

pub open spec fn version_flag_short() -> Seq<char> {
    "-V"@
}

pub open spec fn help_flag() -> Seq<char> {
    "--help"@
}

pub open spec fn help_flag_short() -> Seq<char> {
    "-h"@
}

/// The index of the first argument equal to `x`; meaningful only when one
/// exists.
pub open spec fn first_index_of(args: Seq<Seq<char>>, x: Seq<char>) -> int
    decreases args.len(),
{
    if args.len() == 0 {
        0
    } else if args[0] == x {
        0
    } else {
        1 + first_index_of(args.drop_first(), x)
    }
}

proof fn lemma_first_index_at(args: Seq<Seq<char>>, x: Seq<char>, i: int)
    requires
        0 <= i <= args.len(),
        forall|j: int| 0 <= j < i ==> args[j] != x,
        i < args.len() ==> args[i] == x,
    ensures
        first_index_of(args, x) == i,
    decreases i,
{
    if i > 0 {
        lemma_first_index_at(args.drop_first(), x, i - 1);
    }
}

/// A dispatch decision, with the argument vector that accompanies it.
pub enum DispatchDecision {
    /// Hand the final arguments to the real compiler.
    ForwardToCompiler { final_args: Vec<String> },
    /// Run the wrapped analysis over the final arguments; `no_deps` is the
    /// initial value of the skip-dependency-analysis option, refined by
    /// later option parsing outside this decision.
    RunAnalysis { final_args: Vec<String>, no_deps: bool },
    /// Terminate at once with this exit code, invoking nothing.
    ExitEarly { code: i32 },
}

/// The mathematical content of a [`DispatchDecision`].
pub enum DecisionModel {
    Forward { final_args: Seq<Seq<char>> },
    Analysis { final_args: Seq<Seq<char>>, no_deps: bool },
    Exit { code: int },
}

impl View for DispatchDecision {
    type V = DecisionModel;

    open spec fn view(&self) -> DecisionModel {
        match self {
            DispatchDecision::ForwardToCompiler { final_args } => DecisionModel::Forward {
                final_args: final_args.deep_view(),
            },
            DispatchDecision::RunAnalysis { final_args, no_deps } => DecisionModel::Analysis {
                final_args: final_args.deep_view(),
                no_deps: *no_deps,
            },
            DispatchDecision::ExitEarly { code } => DecisionModel::Exit { code: *code as int },
        }
    }
}

/// Whether the arguments carry an explicit sysroot: the scan for the sysroot
/// flag, under a predicate that accepts everything, finds a value.
pub open spec fn spec_has_sysroot(args: Seq<Seq<char>>) -> bool {
    scan_candidates(args, sysroot_flag()).len() != 0
}

/// Append the sysroot pair when an override is set and the arguments do not
/// already carry an explicit sysroot; otherwise leave the arguments alone.
pub open spec fn spec_inject(
    args: Seq<Seq<char>>,
    has_sysroot: bool,
    env: Option<Seq<char>>,
) -> Seq<Seq<char>> {
    match env {
        Some(path) => if !has_sysroot {
            args.push(sysroot_flag()).push(path)
        } else {
            args
        },
        None => args,
    }
}

/// The forwarded arguments before injection: the first passthrough marker
/// removed and the program slot rewritten to the real compiler's name.
pub open spec fn spec_forward_args(args: Seq<Seq<char>>) -> Seq<Seq<char>> {
    let removed = args.remove(first_index_of(args, rustc_marker()));
    if removed.len() == 0 {
        seq![compiler_name()]
    } else {
        removed.update(0, compiler_name())
    }
}

/// Wrapper mode: the argument at index 1 exists and its file stem is the
/// real compiler's name (a build orchestrator injected a redundant marker).
pub open spec fn spec_wrapper_mode(args: Seq<Seq<char>>) -> bool {
    args.len() >= 2 && spec_file_stem(args[1]) == compiler_name()
}

/// The decision tree over a snapshot of the arguments and of the sysroot
/// override, its rules in strict precedence order: the passthrough marker
/// first, then the version query, then wrapper-mode trimming, then the help
/// or bare invocation, and otherwise the wrapped analysis. The explicit
/// sysroot is looked for in the arguments as given, before any removal.
pub open spec fn spec_dispatch(args: Seq<Seq<char>>, env: Option<Seq<char>>) -> DecisionModel {
    let has = spec_has_sysroot(args);
    if args.contains(rustc_marker()) {
        DecisionModel::Forward { final_args: spec_inject(spec_forward_args(args), has, env) }
    } else if args.contains(version_flag()) || args.contains(version_flag_short()) {
        DecisionModel::Exit { code: 0 }
    } else {
        let wrapper = spec_wrapper_mode(args);
        if !wrapper && (args.contains(help_flag()) || args.contains(help_flag_short())
            || args.len() == 1) {
            DecisionModel::Exit { code: 0 }
        } else {
            DecisionModel::Analysis {
                final_args: spec_inject(spec_trimmed(args), has, env),
                no_deps: false,
            }
        }
    }
}

/// The arguments after wrapper-mode trimming: the redundant marker at index
/// 1 removed when wrapper mode holds, the arguments unchanged otherwise.
pub open spec fn spec_trimmed(args: Seq<Seq<char>>) -> Seq<Seq<char>> {
    if spec_wrapper_mode(args) {
        args.remove(1)
    } else {
        args
    }
}

/// Law: sysroot injection. When an override is set and the arguments carry
/// no explicit sysroot, the final vector of a forwarding or analysis
/// decision is its pre-injection vector with exactly one trailing
/// `--sysroot <path>` pair appended; when an explicit sysroot is present,
/// the override changes the decision not at all.
pub proof fn lemma_sysroot_injection(args: Seq<Seq<char>>, path: Seq<char>)
    ensures
        !spec_has_sysroot(args) ==> match spec_dispatch(args, Some(path)) {
            DecisionModel::Forward { final_args } => final_args == spec_forward_args(args).push(
                sysroot_flag(),
            ).push(path) && final_args.len() == spec_forward_args(args).len() + 2,
            DecisionModel::Analysis { final_args, .. } => final_args == spec_trimmed(args).push(
                sysroot_flag(),
            ).push(path) && final_args.len() == spec_trimmed(args).len() + 2,
            DecisionModel::Exit { .. } => true,
        },
        spec_has_sysroot(args) ==> spec_dispatch(args, Some(path)) == spec_dispatch(args, None),
{
}

/// Law: wrapper-mode trimming. Without a passthrough marker or a version
/// query, when the file stem of the argument at index 1 is the compiler's
/// name, that argument is removed exactly once, the help and bare-invocation
/// checks are skipped, and the decision is analysis over the trimmed vector
/// plus any injected sysroot pair.
pub proof fn lemma_wrapper_trim(args: Seq<Seq<char>>, env: Option<Seq<char>>)
    requires
        !args.contains(rustc_marker()),
        !args.contains(version_flag()),
        !args.contains(version_flag_short()),
        spec_wrapper_mode(args),
    ensures
        spec_dispatch(args, env) == (DecisionModel::Analysis {
            final_args: spec_inject(args.remove(1), spec_has_sysroot(args), env),
            no_deps: false,
        }),
        spec_trimmed(args) == args.remove(1),
        args.remove(1).len() == args.len() - 1,
{
}

/// Law: the decision tree is total and deterministic over its snapshot: two
/// evaluations on the same arguments and environment yield the same decision
/// variant and identical final argument vectors.
pub proof fn lemma_dispatch_deterministic(
    args1: Seq<Seq<char>>,
    env1: Option<Seq<char>>,
    args2: Seq<Seq<char>>,
    env2: Option<Seq<char>>,
)
    requires
        args1 == args2,
        env1 == env2,
    ensures
        spec_dispatch(args1, env1) == spec_dispatch(args2, env2),
{
}

/// Position of the first argument equal to `x`.
fn find_arg_position(args: &Vec<String>, x: &str) -> (r: Option<usize>)
    ensures
        match r {
            Some(i) => {
                &&& i < args.len()
                &&& args.deep_view()[i as int] == x@
                &&& i as int == first_index_of(args.deep_view(), x@)
                &&& args.deep_view().contains(x@)
            },
            None => !args.deep_view().contains(x@),
        },
{
    let ghost dv = args.deep_view();
    let mut i: usize = 0;
    while i < args.len()
        invariant
            dv == args.deep_view(),
            dv.len() == args.len(),
            i <= args.len(),
            forall|j: int| 0 <= j < i ==> dv[j] != x@,
        decreases args.len() - i,
    {
        if str_eq(args[i].as_str(), x) {
            proof {
                lemma_first_index_at(dv, x@, i as int);
            }
            return Some(i);
        }
        i += 1;
    }
    proof {
        assert(forall|j: int| 0 <= j < dv.len() ==> dv[j] != x@);
    }
    None
}

/// Whether some argument equals `x` or equals `y`.
fn contains_either(args: &Vec<String>, x: &str, y: &str) -> (r: bool)
    ensures
        r == (args.deep_view().contains(x@) || args.deep_view().contains(y@)),
{
    let ghost dv = args.deep_view();
    let mut i: usize = 0;
    while i < args.len()
        invariant
            dv == args.deep_view(),
            dv.len() == args.len(),
            i <= args.len(),
            forall|j: int| 0 <= j < i ==> dv[j] != x@ && dv[j] != y@,
        decreases args.len() - i,
    {
        if str_eq(args[i].as_str(), x) || str_eq(args[i].as_str(), y) {
            proof {
                assert(dv[i as int] == args@[i as int]@);
                assert(dv.contains(x@) || dv.contains(y@));
            }
            return true;
        }
        i += 1;
    }
    false
}

/// An element-by-element copy of the argument vector.
fn clone_args(args: &Vec<String>) -> (r: Vec<String>)
    ensures
        r@ == args@,
{
    let mut r: Vec<String> = Vec::new();
    let mut i: usize = 0;
    while i < args.len()
        invariant
            i <= args.len(),
            r@ =~= args@.take(i as int),
        decreases args.len() - i,
    {
        r.push(args[i].clone());
        i += 1;
    }
    proof {
        assert(args@.take(args@.len() as int) =~= args@);
    }
    r
}

/// Whether the arguments carry an explicit sysroot flag with a value, looked
/// up with a predicate that accepts every value.
fn has_sysroot_arg(args: &Vec<String>) -> (r: bool)
    ensures
        r == spec_has_sysroot(args.deep_view()),
{
    let pred = |_s: &str| -> (b: bool)
        ensures
            b,
        {
            true
        };
    assert(forall|s: &str| #[trigger] call_requires(pred, (s,)));
    let found = arg_value(args, "--sysroot", pred);
    let ghost cs = scan_candidates(args.deep_view(), "--sysroot"@);
    proof {
        assert(forall|s: &str, b: bool| #[trigger] call_ensures(pred, (s,), b) ==> b);
        if found is None && cs.len() != 0 {
            assert(rejects(pred, cs[0]));
            let s = choose|s: &str| s@ == cs[0] && call_ensures(pred, (s,), false);
            assert(false);
        }
    }
    found.is_some()
}

/// Append the sysroot pair from the environment override, unless the
/// arguments already carry an explicit sysroot.
fn inject_sysroot(args: &mut Vec<String>, has_sysroot: bool, env: &Option<String>)
    ensures
        final(args).deep_view() == spec_inject(
            old(args).deep_view(),
            has_sysroot,
            env.deep_view(),
        ),
{
    match env {
        Some(path) => {
            if !has_sysroot {
                let ghost dv0 = args.deep_view();
                args.push(String::from_str("--sysroot"));
                let ghost dv1 = args.deep_view();
                proof {
                    assert(dv1 =~= dv0.push(sysroot_flag()));
                }
                args.push(path.clone());
                proof {
                    assert(args.deep_view() =~= dv1.push(path@));
                }
            }
        },
        None => {},
    }
}

/// Decide one invocation: the decision tree of the dispatch policy, applied
/// to a snapshot of the argument vector and of the sysroot override.
pub fn dispatch(args: &Vec<String>, sysroot_env: &Option<String>) -> (d: DispatchDecision)
    ensures
        d@ == spec_dispatch(args.deep_view(), sysroot_env.deep_view()),
{
    let ghost dv = args.deep_view();
    let has_sysroot = has_sysroot_arg(args);
    match find_arg_position(args, "--rustc") {
        Some(pos) => {
            let mut new_args = clone_args(args);
            proof {
                assert(new_args.deep_view() =~= dv);
            }
            new_args.remove(pos);
            proof {
                assert(new_args.deep_view() =~= dv.remove(pos as int));
            }
            if new_args.len() == 0 {
                new_args.push(String::from_str("rustc"));
                proof {
                    assert(new_args.deep_view() =~= seq![compiler_name()]);
                }
            } else {
                new_args[0] = String::from_str("rustc");
                proof {
                    assert(new_args.deep_view() =~= dv.remove(pos as int).update(
                        0,
                        compiler_name(),
                    ));
                }
            }
            proof {
                assert(new_args.deep_view() == spec_forward_args(dv));
            }
            inject_sysroot(&mut new_args, has_sysroot, sysroot_env);
            DispatchDecision::ForwardToCompiler { final_args: new_args }
        },
        None => {
            if contains_either(args, "--version", "-V") {
                return DispatchDecision::ExitEarly { code: 0 };
            }
            let wrapper = if args.len() >= 2 {
                let stem_matches = str_eq(file_stem(args[1].as_str()), "rustc");
                proof {
                    assert(args@[1]@ == dv[1]);
                }
                stem_matches
            } else {
                false
            };
            proof {
                assert(wrapper == spec_wrapper_mode(dv));
            }
            if !wrapper && (contains_either(args, "--help", "-h") || args.len() == 1) {
                return DispatchDecision::ExitEarly { code: 0 };
            }
            let mut new_args = clone_args(args);
            proof {
                assert(new_args.deep_view() =~= dv);
            }
            if wrapper {
                new_args.remove(1);
                proof {
                    assert(new_args.deep_view() =~= dv.remove(1));
                }
            }
            inject_sysroot(&mut new_args, has_sysroot, sysroot_env);
            DispatchDecision::RunAnalysis { final_args: new_args, no_deps: false }
        },
    }
}

} // verus!
