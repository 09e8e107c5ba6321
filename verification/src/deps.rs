//! Dependency tracking: the set of environment variables and filesystem
//! paths that the dispatch decision depended on, handed at the end of an
//! invocation to the build system's rebuild-invalidation sink.

use vstd::prelude::*;
use vstd::string::StringExecFns;

verus! {

/// The mathematical content of a [`DependencySet`]: a map from tracked
/// environment-variable names to their captured values (`None` meaning the
/// variable was tracked as unset) and a set of tracked file paths.
pub struct DepsModel {
    pub env: Map<Seq<char>, Option<Seq<char>>>,
    pub files: Set<Seq<char>>,
}

/// The map described by a sequence of name/value entries: later entries win,
/// though a well-formed recorder never stores a name twice.
pub open spec fn env_map_of(entries: Seq<(String, Option<String>)>) -> Map<
    Seq<char>,
    Option<Seq<char>>,
>
    decreases entries.len(),
{
    if entries.len() == 0 {
        Map::empty()
    } else {
        env_map_of(entries.drop_last()).insert(
            entries.last().0@,
            entries.last().1.deep_view(),
        )
    }
}

/// The set of path views held by a sequence of path strings.
pub open spec fn file_set_of(paths: Seq<String>) -> Set<Seq<char>>
    decreases paths.len(),
{
    if paths.len() == 0 {
        Set::empty()
    } else {
        file_set_of(paths.drop_last()).insert(paths.last()@)
    }
}

proof fn lemma_env_map_dom(entries: Seq<(String, Option<String>)>)
    ensures
        forall|k: Seq<char>| #[trigger]
            env_map_of(entries).dom().contains(k) <==> exists|i: int|
                0 <= i < entries.len() && entries[i].0@ == k,
    decreases entries.len(),
{
    if entries.len() > 0 {
        lemma_env_map_dom(entries.drop_last());
        assert(forall|i: int| 0 <= i < entries.len() - 1 ==> entries.drop_last()[i] == entries[i]);
        assert forall|k: Seq<char>| #[trigger]
            env_map_of(entries).dom().contains(k) implies exists|i: int|
            0 <= i < entries.len() && entries[i].0@ == k by {
            if k == entries.last().0@ {
                assert(entries[entries.len() - 1].0@ == k);
            } else {
                assert(env_map_of(entries.drop_last()).dom().contains(k));
                let i = choose|i: int|
                    0 <= i < entries.drop_last().len() && entries.drop_last()[i].0@ == k;
                assert(entries[i].0@ == k);
            }
        }
        assert forall|k: Seq<char>| (exists|i: int| 0 <= i < entries.len() && entries[i].0@ == k)
            implies #[trigger] env_map_of(entries).dom().contains(k) by {
            let i = choose|i: int| 0 <= i < entries.len() && entries[i].0@ == k;
            if i < entries.len() - 1 {
                assert(entries.drop_last()[i].0@ == k);
                assert(env_map_of(entries.drop_last()).dom().contains(k));
            }
        }
    }
}

proof fn lemma_file_set_elems(paths: Seq<String>)
    ensures
        forall|k: Seq<char>| #[trigger]
            file_set_of(paths).contains(k) <==> exists|i: int|
                0 <= i < paths.len() && paths[i]@ == k,
    decreases paths.len(),
{
    if paths.len() > 0 {
        lemma_file_set_elems(paths.drop_last());
        assert(forall|i: int| 0 <= i < paths.len() - 1 ==> paths.drop_last()[i] == paths[i]);
        assert forall|k: Seq<char>| #[trigger] file_set_of(paths).contains(k) implies exists|
            i: int,
        | 0 <= i < paths.len() && paths[i]@ == k by {
            if k == paths.last()@ {
                assert(paths[paths.len() - 1]@ == k);
            } else {
                assert(file_set_of(paths.drop_last()).contains(k));
                let i = choose|i: int|
                    0 <= i < paths.drop_last().len() && paths.drop_last()[i]@ == k;
                assert(paths[i]@ == k);
            }
        }
        assert forall|k: Seq<char>| (exists|i: int| 0 <= i < paths.len() && paths[i]@ == k)
            implies #[trigger] file_set_of(paths).contains(k) by {
            let i = choose|i: int| 0 <= i < paths.len() && paths[i]@ == k;
            if i < paths.len() - 1 {
                assert(paths.drop_last()[i]@ == k);
                assert(file_set_of(paths.drop_last()).contains(k));
            }
        }
    }
}

/// Accumulates, over one driver invocation, the environment variables and
/// file paths that the dispatch decision inspected. Insert-only; an entry is
/// recorded at most once per name or path.
pub struct DependencySet {
    env_vars: Vec<(String, Option<String>)>,
    files: Vec<String>,
}

impl View for DependencySet {
    type V = DepsModel;

    closed spec fn view(&self) -> DepsModel {
        DepsModel { env: env_map_of(self.env_vars@), files: file_set_of(self.files@) }
    }
}

impl DependencySet {
    /// No name and no path is recorded twice.
    pub closed spec fn wf(&self) -> bool {
        &&& forall|i: int, j: int|
            0 <= i < j < self.env_vars@.len() ==> self.env_vars@[i].0@ != self.env_vars@[j].0@
        &&& forall|i: int, j: int| 0 <= i < j < self.files@.len() ==> self.files@[i]@
            != self.files@[j]@
    }

    /// An empty dependency set.
    pub fn new() -> (r: DependencySet)
        ensures
            r.wf(),
            r@.env == Map::<Seq<char>, Option<Seq<char>>>::empty(),
            r@.files == Set::<Seq<char>>::empty(),
    {
        DependencySet { env_vars: Vec::new(), files: Vec::new() }
    }

    /// Record an environment variable with the value captured for it (`None`
    /// when it was unset). The first record for a name wins; a later one for
    /// the same name changes nothing.
    pub fn track_env_var(&mut self, name: String, value: Option<String>)
        requires
            old(self).wf(),
        ensures
            final(self).wf(),
            final(self)@.env == if old(self)@.env.dom().contains(name@) {
                old(self)@.env
            } else {
                old(self)@.env.insert(name@, value.deep_view())
            },
            final(self)@.files == old(self)@.files,
    {
        proof {
            lemma_env_map_dom(self.env_vars@);
        }
        let mut i: usize = 0;
        while i < self.env_vars.len()
            invariant
                old(self).wf(),
                *self == *old(self),
                i <= self.env_vars@.len(),
                forall|j: int| 0 <= j < i ==> self.env_vars@[j].0@ != name@,
            decreases self.env_vars@.len() - i,
        {
            if str_eq_owned(&self.env_vars[i].0, &name) {
                proof {
                    lemma_env_map_dom(self.env_vars@);
                    assert(self.env_vars@[i as int].0@ == name@);
                    assert(exists|j: int|
                        0 <= j < self.env_vars@.len() && self.env_vars@[j].0@ == name@);
                    assert(old(self)@.env.dom().contains(name@));
                }
                return ;
            }
            i += 1;
        }
        let ghost entries = self.env_vars@;
        self.env_vars.push((name, value));
        proof {
            assert(self.env_vars@.drop_last() =~= entries);
        }
    }

    /// Record a file path. Recording a path already present changes nothing,
    /// so the tracked set always grows by at most this one path.
    pub fn track_file(&mut self, path: String)
        requires
            old(self).wf(),
        ensures
            final(self).wf(),
            final(self)@.env == old(self)@.env,
            final(self)@.files == old(self)@.files.insert(path@),
    {
        proof {
            lemma_file_set_elems(self.files@);
        }
        let mut i: usize = 0;
        while i < self.files.len()
            invariant
                old(self).wf(),
                *self == *old(self),
                i <= self.files@.len(),
                forall|j: int| 0 <= j < i ==> self.files@[j]@ != path@,
            decreases self.files@.len() - i,
        {
            if str_eq_owned(&self.files[i], &path) {
                proof {
                    lemma_file_set_elems(self.files@);
                    assert(self.files@[i as int]@ == path@);
                    assert(exists|j: int| 0 <= j < self.files@.len() && self.files@[j]@ == path@);
                    assert(old(self)@.files.contains(path@));
                    assert(old(self)@.files.insert(path@) =~= old(self)@.files);
                }
                return ;
            }
            i += 1;
        }
        let ghost paths = self.files@;
        self.files.push(path);
        proof {
            assert(self.files@.drop_last() =~= paths);
        }
    }

    /// The recorded environment entries, for handing to the build-tracking
    /// sink.
    pub fn env_entries(&self) -> (r: &Vec<(String, Option<String>)>)
        ensures
            env_map_of(r@) == self@.env,
    {
        &self.env_vars
    }

    /// The recorded file paths, for handing to the build-tracking sink.
    pub fn file_paths(&self) -> (r: &Vec<String>)
        ensures
            file_set_of(r@) == self@.files,
    {
        &self.files
    }
}

/// The file paths tracked by one invocation: the project manifest when it
/// exists in the working directory, and, in a development build, the running
/// executable itself when its path could be resolved.
pub open spec fn spec_tracked_files(
    base: Set<Seq<char>>,
    manifest_exists: bool,
    debug_build: bool,
    current_exe: Option<Seq<char>>,
) -> Set<Seq<char>> {
    let with_manifest = if manifest_exists {
        base.insert("Cargo.toml"@)
    } else {
        base
    };
    match current_exe {
        Some(exe) => if debug_build {
            with_manifest.insert(exe)
        } else {
            with_manifest
        },
        None => with_manifest,
    }
}

/// Record the environment variable that passes extra tool arguments, with
/// its captured value, or as tracked-while-unset when it has none. Mirrors
/// what the build system needs to re-run the driver when the variable
/// changes between builds.
pub fn track_tool_args(deps: &mut DependencySet, var_name: String, args_env_var: &Option<String>)
    requires
        old(deps).wf(),
    ensures
        final(deps).wf(),
        final(deps)@.env == if old(deps)@.env.dom().contains(var_name@) {
            old(deps)@.env
        } else {
            old(deps)@.env.insert(var_name@, args_env_var.deep_view())
        },
        final(deps)@.files == old(deps)@.files,
{
    let value = match args_env_var {
        Some(v) => Some(v.clone()),
        None => None,
    };
    deps.track_env_var(var_name, value);
}

/// Track the files that may be read at run time, so that the build system
/// re-runs the driver when any of them changes: the project manifest when it
/// exists, and, during development only, the driver executable itself. A
/// path that could not be resolved is silently not tracked.
pub fn track_files(
    deps: &mut DependencySet,
    manifest_exists: bool,
    debug_build: bool,
    current_exe: Option<String>,
)
    requires
        old(deps).wf(),
    ensures
        final(deps).wf(),
        final(deps)@.env == old(deps)@.env,
        final(deps)@.files == spec_tracked_files(
            old(deps)@.files,
            manifest_exists,
            debug_build,
            current_exe.deep_view(),
        ),
{
    if manifest_exists {
        deps.track_file(String::from_str("Cargo.toml"));
    }
    if debug_build {
        match current_exe {
            Some(exe) => deps.track_file(exe),
            None => (),
        }
    }
}

/// One invocation's whole dependency record: the extra-arguments variable is
/// always tracked, the manifest and (in development builds) the executable
/// are tracked when present.
pub fn record_dependencies(
    tool_args_var: String,
    tool_args: Option<String>,
    manifest_exists: bool,
    debug_build: bool,
    current_exe: Option<String>,
) -> (deps: DependencySet)
    ensures
        deps.wf(),
        deps@.env == Map::<Seq<char>, Option<Seq<char>>>::empty().insert(
            tool_args_var@,
            tool_args.deep_view(),
        ),
        deps@.files == spec_tracked_files(
            Set::<Seq<char>>::empty(),
            manifest_exists,
            debug_build,
            current_exe.deep_view(),
        ),
{
    let mut deps = DependencySet::new();
    track_tool_args(&mut deps, tool_args_var, &tool_args);
    track_files(&mut deps, manifest_exists, debug_build, current_exe);
    deps
}

/// Equality of two owned strings, at the level of their character sequences.
fn str_eq_owned(a: &String, b: &String) -> (r: bool)
    ensures
        r == (a@ == b@),
{
    crate::scan::str_eq(a.as_str(), b.as_str())
}

} // verus!
