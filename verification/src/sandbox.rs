//! Synthesis of the namespace-isolation tool's invocation from a sandbox
//! policy: a permission tree plus an environment-variable whitelist, turned
//! into `bwrap` arguments, with a seccomp filter against terminal-injection
//! ioctls. Spawning the tool itself stays with the caller.

use vstd::prelude::*;

use crate::command::Command;
use crate::environment::Env;
use crate::tree::{VirtualFSEntryType, VirtualFSTree};

verus! {

/// A sandbox policy ready for execution: the normalized permission tree and
/// the environment variables to forward.
#[derive(Debug)]
pub struct SandboxParameters {
    pub fs_tree: VirtualFSTree<()>,
    pub envvar_whitelist: EnvVarWhitelist,
}

/// Which environment variables the sandboxed process inherits.
#[derive(Clone, Debug)]
pub enum EnvVarWhitelist {
    /// Forward the full parent environment.
    All,
    /// Clear the environment and forward only these, where set.
    List(Vec<String>),
}

/// A failure while building the sandbox invocation.
#[derive(Clone, Debug, PartialEq, Eq)]
pub enum SandboxError {
    /// A whitelisted symlink's target could not be read from the host.
    UnreadableSymlink(String),
    /// The seccomp filter could not be compiled for this machine.
    SeccompUnavailable,
}

impl SandboxError {
    /// A short human-readable account of the failure.
    pub fn message(&self) -> (r: String)
        ensures
            self matches SandboxError::UnreadableSymlink(p) ==> r@ == "failed to read symlink "@
                + p@,
            self is SeccompUnavailable ==> r@ == "failed to build the seccomp filter"@,
    {
        match self {
            SandboxError::UnreadableSymlink(p) => {
                let mut m = String::from_str("failed to read symlink ");
                m.append(p.as_str());
                m
            },
            SandboxError::SeccompUnavailable => String::from_str(
                "failed to build the seccomp filter",
            ),
        }
    }
}

/// Relies on nix::fcntl::readlink: reads the target of the symbolic link at
/// `path` from the host filesystem. The result depends on the state of the
/// disk, so nothing is claimed about the returned target; a target that is
/// not valid Unicode is treated as unreadable.
#[verifier::external_body]
fn read_symlink_target(path: &String) -> (r: Option<String>)
{
    match nix::fcntl::readlink(std::path::Path::new(path.as_str())) {
        Ok(t) => t.into_string().ok(),
        Err(_) => None,
    }
}

/// The absolute path a component sequence names: `/` for the empty
/// sequence, else the components each preceded by a separator.
pub open spec fn spec_join_path(p: Seq<Seq<char>>) -> Seq<char>
    decreases p.len(),
{
    if p.len() == 0 {
        "/"@
    } else if p.len() == 1 {
        "/"@ + p[0]
    } else {
        spec_join_path(p.drop_last()) + "/"@ + p[p.len() - 1]
    }
}

/// Joins path components into the absolute path they name.
pub fn join_abs_path(parts: &Vec<String>) -> (r: String)
    ensures
        r@ == spec_join_path(crate::tree::views(parts@)),
{
    let n = parts.len();
    if n == 0 {
        proof {
            reveal_strlit("/");
        }
        return String::from_str("/");
    }
    let mut r = String::new();
    let mut i: usize = 0;
    while i < n
        invariant
            0 < i ==> r@ == spec_join_path(crate::tree::views(parts@).take(i as int)),
            i == 0 ==> r@ == Seq::<char>::empty(),
            i <= n,
            n == parts@.len(),
        decreases n - i,
    {
        r.append("/");
        r.append(parts[i].as_str());
        proof {
            let v = crate::tree::views(parts@);
            assert(v[i as int] == parts@[i as int]@);
            if i == 0 {
                assert(v.take(1).len() == 1);
                assert(v.take(1)[0] == v[0]);
            } else {
                assert(v.take(i as int + 1).drop_last() =~= v.take(i as int));
                assert(v.take(i as int + 1)[i as int] == v[i as int]);
            }
        }
        i = i + 1;
    }
    proof {
        assert(crate::tree::views(parts@).take(n as int) =~= crate::tree::views(parts@));
    }
    r
}

/// The `bwrap` arguments for one flattened tree entry: a best-effort bind
/// of the matching flavour, a symlink creation with the resolved target, or
/// a fresh tmpfs.
pub open spec fn spec_fs_entry_args(
    path: Seq<char>,
    ty: VirtualFSEntryType,
    target: Seq<char>,
) -> Seq<Seq<char>> {
    match ty {
        VirtualFSEntryType::AllowDev => seq!["--dev-bind-try"@, path, path],
        VirtualFSEntryType::ReadWrite => seq!["--bind-try"@, path, path],
        VirtualFSEntryType::ReadOnly => seq!["--ro-bind-try"@, path, path],
        VirtualFSEntryType::Symlink => seq!["--symlink"@, target, path],
        VirtualFSEntryType::Tmpfs => seq!["--tmpfs"@, path],
    }
}

/// The seccomp handoff: the filter's pipe descriptor, in foreground mode.
pub open spec fn spec_seccomp_args(fd: Option<u64>) -> Seq<Seq<char>> {
    match fd {
        Some(n) => seq!["--seccomp"@, crate::strutil::dec_seq(n as int)],
        None => Seq::empty(),
    }
}

/// The `--setenv` groups for the first `k` whitelisted names: one group per
/// name that is set to a Unicode value, in list order.
pub open spec fn spec_setenv_args_upto(
    wl: Seq<String>,
    vars: Seq<(String, Option<String>)>,
    k: int,
) -> Seq<Seq<char>>
    decreases k,
{
    if k <= 0 || k > wl.len() {
        Seq::empty()
    } else {
        spec_setenv_args_upto(wl, vars, k - 1) + match Env::spec_lookup(vars, wl[k - 1]@) {
            Some(Some(v)) => seq!["--setenv"@, wl[k - 1]@, v@],
            _ => Seq::empty(),
        }
    }
}

/// The environment handling: nothing for `All`; for a list, a cleared
/// environment plus the set whitelisted variables.
pub open spec fn spec_env_args(
    w: EnvVarWhitelist,
    vars: Seq<(String, Option<String>)>,
) -> Seq<Seq<char>> {
    match w {
        EnvVarWhitelist::All => Seq::empty(),
        EnvVarWhitelist::List(l) => seq!["--clearenv"@] + spec_setenv_args_upto(
            l@,
            vars,
            l@.len() as int,
        ),
    }
}

/// The working-directory change, where one is given.
pub open spec fn spec_chdir_args(wd: Option<String>) -> Seq<Seq<char>> {
    match wd {
        Some(d) => seq!["--chdir"@, d@],
        None => Seq::empty(),
    }
}

/// The argument groups of the first `k` flattened tree entries, in listing
/// order; `targets[j]` is the resolved link target of entry `j` (unused for
/// entries that are not symlinks).
pub open spec fn spec_fs_args_upto(
    entries: Seq<(Seq<Seq<char>>, VirtualFSEntryType)>,
    targets: Seq<Seq<char>>,
    k: int,
) -> Seq<Seq<char>>
    decreases k,
{
    if k <= 0 || k > entries.len() || k > targets.len() {
        Seq::empty()
    } else {
        spec_fs_args_upto(entries, targets, k - 1) + spec_fs_entry_args(
            spec_join_path(entries[k - 1].0),
            entries[k - 1].1,
            targets[k - 1],
        )
    }
}

/// The closing arguments: the namespace unsharing flags, the lifetime tie
/// in foreground mode, and the program with its arguments after `--`.
pub open spec fn spec_tail_args(detach: bool, program: Seq<char>, args: Seq<Seq<char>>) -> Seq<
    Seq<char>,
> {
    seq!["--unshare-ipc"@, "--unshare-pid"@] + (if !detach {
        seq!["--die-with-parent"@]
    } else {
        Seq::empty()
    }) + seq!["--"@, program] + args
}

/// The complete `bwrap` argument list the synthesis owes, given the
/// resolved symlink targets.
pub open spec fn spec_bwrap_args(
    fd: Option<u64>,
    w: EnvVarWhitelist,
    vars: Seq<(String, Option<String>)>,
    wd: Option<String>,
    detach: bool,
    entries: Seq<(Seq<Seq<char>>, VirtualFSEntryType)>,
    targets: Seq<Seq<char>>,
    program: Seq<char>,
    args: Seq<Seq<char>>,
) -> Seq<Seq<char>> {
    spec_seccomp_args(fd) + spec_env_args(w, vars) + spec_chdir_args(wd) + seq![
        "--proc"@,
        "/proc"@,
        "--dev"@,
        "/dev"@,
    ] + spec_fs_args_upto(entries, targets, entries.len() as int) + spec_tail_args(
        detach,
        program,
        args,
    )
}

/// Restates one unfolding of `spec_setenv_args_upto`.
proof fn lemma_setenv_unfold(wl: Seq<String>, vars: Seq<(String, Option<String>)>, k: int)
    ensures
        0 < k <= wl.len() ==> spec_setenv_args_upto(wl, vars, k) == spec_setenv_args_upto(
            wl,
            vars,
            k - 1,
        ) + match Env::spec_lookup(vars, wl[k - 1]@) {
            Some(Some(v)) => seq!["--setenv"@, wl[k - 1]@, v@],
            _ => Seq::empty(),
        },
        k <= 0 || k > wl.len() ==> spec_setenv_args_upto(wl, vars, k) == Seq::<Seq<char>>::empty(),
{
}

/// Restates one unfolding of `spec_fs_args_upto`.
proof fn lemma_fs_args_unfold(
    entries: Seq<(Seq<Seq<char>>, VirtualFSEntryType)>,
    targets: Seq<Seq<char>>,
    k: int,
)
    ensures
        0 < k <= entries.len() && k <= targets.len() ==> spec_fs_args_upto(entries, targets, k)
            == spec_fs_args_upto(entries, targets, k - 1) + spec_fs_entry_args(
            spec_join_path(entries[k - 1].0),
            entries[k - 1].1,
            targets[k - 1],
        ),
        k <= 0 || k > entries.len() || k > targets.len() ==> spec_fs_args_upto(entries, targets, k)
            == Seq::<Seq<char>>::empty(),
{
}

/// The first `k` argument groups only depend on the first `k` targets.
proof fn lemma_fs_args_prefix(
    entries: Seq<(Seq<Seq<char>>, VirtualFSEntryType)>,
    t1: Seq<Seq<char>>,
    t2: Seq<Seq<char>>,
    k: int,
)
    requires
        k <= t1.len(),
        k <= t2.len(),
        forall|x: int| 0 <= x < k ==> t1[x] == t2[x],
    ensures
        spec_fs_args_upto(entries, t1, k) == spec_fs_args_upto(entries, t2, k),
    decreases k,
{
    if 0 < k && k <= entries.len() {
        lemma_fs_args_prefix(entries, t1, t2, k - 1);
    }
}

/// Appends one argument, tracking the views of the list.
fn push_arg(args: &mut Vec<String>, x: String)
    ensures
        final(args)@ == old(args)@.push(x),
        crate::tree::views(final(args)@) == crate::tree::views(old(args)@) + seq![x@],
{
    let ghost xv = x@;
    args.push(x);
    proof {
        assert(crate::tree::views(args@) =~= crate::tree::views(old(args)@) + seq![xv]);
    }
}

impl SandboxParameters {
    /// Builds the complete `bwrap` argument list for `command`, in order:
    /// the seccomp file-descriptor handoff (foreground only), environment
    /// handling, the working directory, a fresh `/proc`, `/dev` (before the
    /// tree entries, so a whitelist may override a subpath of it), one
    /// argument group per flattened tree entry in ancestors-first order,
    /// the namespace unsharing flags, in foreground mode the flag tying the
    /// sandbox to the launcher's lifetime, and the program with its
    /// arguments after `--`: exactly `spec_bwrap_args`, with the symlink
    /// targets as the host resolved them.
    ///
    /// Symlink entries resolve their target from the host here; an
    /// unreadable target aborts the synthesis, naming the entry's path.
    /// Without symlink entries the synthesis cannot fail.
    #[verifier::loop_isolation(false)]
    #[verifier::rlimit(60)]
    #[verifier::spinoff_prover]
    pub fn get_bwrap_args(&self, command: &Command, env: &Env, seccomp_fd: Option<u64>) -> (r:
        Result<Vec<String>, SandboxError>)
        requires
            self.fs_tree.wf(),
            command.working_dir matches Some(d) ==> d@.len() > 0 && d@[0] == '/',
            seccomp_fd is Some <==> !command.detach,
        ensures
            r matches Ok(args) ==> exists|targets: Seq<Seq<char>>|
                targets.len() == self.fs_tree.spec_flatten().len() && crate::tree::views(args@)
                    == spec_bwrap_args(
                    seccomp_fd,
                    self.envvar_whitelist,
                    env.vars@,
                    command.working_dir,
                    command.detach,
                    self.fs_tree.spec_flatten(),
                    targets,
                    command.program@,
                    crate::tree::views(command.args@),
                ),
            r matches Err(e) ==> (e matches SandboxError::UnreadableSymlink(p) && exists|j: int|
                0 <= j < self.fs_tree.spec_flatten().len() && (#[trigger] self.fs_tree.spec_flatten()[
                    j
                ]).1 is Symlink && p@ == spec_join_path(self.fs_tree.spec_flatten()[j].0)),
            (forall|j: int|
                0 <= j < self.fs_tree.spec_flatten().len() ==> !((
                #[trigger] self.fs_tree.spec_flatten()[j]).1 is Symlink)) ==> r is Ok,
    {
        let ghost especs = self.fs_tree.spec_flatten();
        let mut args: Vec<String> = Vec::new();
        if let Some(fd) = seccomp_fd {
            push_arg(&mut args, String::from_str("--seccomp"));
            push_arg(&mut args, crate::strutil::u64_to_dec(fd));
        }
        proof {
            assert(crate::tree::views(args@) =~= spec_seccomp_args(seccomp_fd));
        }
        let ghost p1 = crate::tree::views(args@);
        match &self.envvar_whitelist {
            EnvVarWhitelist::All => (),
            EnvVarWhitelist::List(list) => {
                push_arg(&mut args, String::from_str("--clearenv"));
                proof {
                    lemma_setenv_unfold(list@, env.vars@, 0);
                    assert(crate::tree::views(args@) =~= p1 + seq!["--clearenv"@]
                        + spec_setenv_args_upto(list@, env.vars@, 0));
                }
                let n = list.len();
                let mut i: usize = 0;
                while i < n
                    invariant
                        i <= n,
                        n == list@.len(),
                        crate::tree::views(args@) == p1 + seq!["--clearenv"@]
                            + spec_setenv_args_upto(list@, env.vars@, i as int),
                    decreases n - i,
                {
                    let ghost before = args@;
                    if let Some(looked) = env.lookup(&list[i]) {
                        if let Some(value) = looked {
                            push_arg(&mut args, String::from_str("--setenv"));
                            push_arg(&mut args, list[i].clone());
                            push_arg(&mut args, value);
                        }
                    }
                    proof {
                        lemma_setenv_unfold(list@, env.vars@, i as int + 1);
                        assert(crate::tree::views(args@) =~= p1 + seq!["--clearenv"@]
                            + spec_setenv_args_upto(list@, env.vars@, i as int + 1));
                    }
                    i = i + 1;
                }
            },
        }
        proof {
            assert(crate::tree::views(args@) =~= p1 + spec_env_args(
                self.envvar_whitelist,
                env.vars@,
            ));
        }
        let ghost p2 = crate::tree::views(args@);
        if let Some(dir) = &command.working_dir {
            push_arg(&mut args, String::from_str("--chdir"));
            push_arg(&mut args, dir.clone());
        }
        proof {
            assert(crate::tree::views(args@) =~= p2 + spec_chdir_args(command.working_dir));
        }
        push_arg(&mut args, String::from_str("--proc"));
        push_arg(&mut args, String::from_str("/proc"));
        push_arg(&mut args, String::from_str("--dev"));
        push_arg(&mut args, String::from_str("/dev"));
        proof {
            assert(crate::tree::views(args@) =~= p2 + spec_chdir_args(command.working_dir) + seq![
                "--proc"@,
                "/proc"@,
                "--dev"@,
                "/dev"@,
            ]);
        }
        let ghost p3 = crate::tree::views(args@);
        let entries = self.fs_tree.flatten();
        let n = entries.len();
        let ghost mut targets: Seq<Seq<char>> = Seq::empty();
        let mut i: usize = 0;
        while i < n
            invariant
                i <= n,
                n == entries@.len(),
                targets.len() == i,
                crate::tree::views(args@) == p3 + spec_fs_args_upto(especs, targets, i as int),
            decreases n - i,
        {
            let ghost before_targets = targets;
            let path = join_abs_path(&entries[i].0);
            proof {
                assert(crate::tree::views(entries@[i as int].0@) == especs[i as int].0);
                assert(path@ == spec_join_path(especs[i as int].0));
                assert(entries@[i as int].1 == especs[i as int].1);
            }
            match entries[i].1 {
                VirtualFSEntryType::AllowDev => {
                    push_arg(&mut args, String::from_str("--dev-bind-try"));
                    push_arg(&mut args, path.clone());
                    push_arg(&mut args, path);
                    proof {
                        targets = targets.push(arbitrary());
                    }
                },
                VirtualFSEntryType::ReadWrite => {
                    push_arg(&mut args, String::from_str("--bind-try"));
                    push_arg(&mut args, path.clone());
                    push_arg(&mut args, path);
                    proof {
                        targets = targets.push(arbitrary());
                    }
                },
                VirtualFSEntryType::ReadOnly => {
                    push_arg(&mut args, String::from_str("--ro-bind-try"));
                    push_arg(&mut args, path.clone());
                    push_arg(&mut args, path);
                    proof {
                        targets = targets.push(arbitrary());
                    }
                },
                VirtualFSEntryType::Symlink => {
                    match read_symlink_target(&path) {
                        Some(target) => {
                            push_arg(&mut args, String::from_str("--symlink"));
                            let ghost tv = target@;
                            push_arg(&mut args, target);
                            push_arg(&mut args, path);
                            proof {
                                targets = targets.push(tv);
                            }
                        },
                        None => {
                            proof {
                                assert(0 <= i < especs.len() && especs[i as int].1 is Symlink
                                    && path@ == spec_join_path(especs[i as int].0));
                            }
                            return Err(SandboxError::UnreadableSymlink(path));
                        },
                    }
                },
                VirtualFSEntryType::Tmpfs => {
                    push_arg(&mut args, String::from_str("--tmpfs"));
                    push_arg(&mut args, path);
                    proof {
                        targets = targets.push(arbitrary());
                    }
                },
            }
            proof {
                lemma_fs_args_prefix(especs, before_targets, targets, i as int);
                lemma_fs_args_unfold(especs, targets, i as int + 1);
                assert(crate::tree::views(args@) =~= p3 + spec_fs_args_upto(
                    especs,
                    targets,
                    i as int + 1,
                ));
            }
            i = i + 1;
        }
        proof {
            assert(crate::tree::views(args@) == p3 + spec_fs_args_upto(
                especs,
                targets,
                especs.len() as int,
            ));
        }
        let ghost p4 = crate::tree::views(args@);
        push_arg(&mut args, String::from_str("--unshare-ipc"));
        push_arg(&mut args, String::from_str("--unshare-pid"));
        if !command.detach {
            push_arg(&mut args, String::from_str("--die-with-parent"));
        }
        push_arg(&mut args, String::from_str("--"));
        push_arg(&mut args, command.program.clone());
        proof {
            assert(crate::tree::views(args@) =~= p4 + (seq!["--unshare-ipc"@, "--unshare-pid"@]
                + (if !command.detach {
                    seq!["--die-with-parent"@]
                } else {
                    Seq::<Seq<char>>::empty()
                }) + seq!["--"@, command.program@]));
        }
        let ghost p5 = crate::tree::views(args@);
        let m = command.args.len();
        let mut j: usize = 0;
        while j < m
            invariant
                j <= m,
                m == command.args@.len(),
                crate::tree::views(args@) == p5 + crate::tree::views(command.args@).take(j as int),
            decreases m - j,
        {
            push_arg(&mut args, command.args[j].clone());
            proof {
                assert(crate::tree::views(command.args@).take(j as int).push(
                    command.args@[j as int]@,
                ) =~= crate::tree::views(command.args@).take(j as int + 1));
            }
            j = j + 1;
        }
        proof {
            assert(crate::tree::views(command.args@).take(m as int) =~= crate::tree::views(
                command.args@,
            ));
            assert(crate::tree::views(args@) =~= spec_bwrap_args(
                seccomp_fd,
                self.envvar_whitelist,
                env.vars@,
                command.working_dir,
                command.detach,
                especs,
                targets,
                command.program@,
                crate::tree::views(command.args@),
            ));
        }
        Ok(args)
    }
}

} // verus!
