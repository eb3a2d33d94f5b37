use skeld::command::{
    forward_child_exit_status, logfile_name, should_remove_logfile, should_retry_redirect,
    ChildStatus, detach_wait_exit_code, LOGFILE_NAME_SPACE,
};
use skeld::environment::{Env, HomeFallback};
use skeld::manpage::get_manpage_cmd;
use skeld::options::MockOption;
use skeld::path_util::{
    canonicalize_include_path, canonicalize_path, get_data_root_paths, substitute_placeholder,
    Error, EnvVarError,
};
use skeld::sandbox::{EnvVarWhitelist, SandboxError, SandboxParameters};
use skeld::seccomp::{get_bpf_program, TIOCLINUX_REQUEST, TIOCSTI_REQUEST};
use skeld::tree::{VirtualFSEntryType, VirtualFSTree};
use skeld::tui::Area;

fn env_of(vars: &[(&str, &str)], home: Option<&str>) -> Env {
    Env {
        vars: vars.iter().map(|(k, v)| (k.to_string(), Some(v.to_string()))).collect(),
        fallback_home: match home {
            Some(h) => HomeFallback::Dir(h.to_string()),
            None => HomeFallback::Unknown,
        },
    }
}

#[test]
fn exit_code_forwarding() {
    assert_eq!(forward_child_exit_status(Some(37), false), 37);
    assert_eq!(forward_child_exit_status(Some(0), true), 0);
    assert_eq!(forward_child_exit_status(None, true), 0);
    // a signal death yields the fixed failure code, never the signal number
    assert_eq!(forward_child_exit_status(None, false), 1);
    assert_eq!(forward_child_exit_status(Some(256 + 5), false), 5);
    assert_eq!(detach_wait_exit_code(ChildStatus::Exited(7)), 7);
    assert_eq!(detach_wait_exit_code(ChildStatus::SignaledOrUnknown), 1);
}

#[test]
fn logfile_naming() {
    assert_eq!(logfile_name(1), "skeld.1.log");
    assert_eq!(logfile_name(2), "skeld.2.log");
    assert_eq!(logfile_name(1439), "skeld.1439.log");
    assert_eq!(LOGFILE_NAME_SPACE, 1440);
    assert!(should_remove_logfile(true, Some((86401, 0))));
    assert!(should_remove_logfile(true, Some((86400, 1))));
    assert!(!should_remove_logfile(true, Some((86400, 0))));
    assert!(!should_remove_logfile(false, Some((1_000_000, 0))));
    assert!(!should_remove_logfile(true, None));
    assert!(should_retry_redirect(4));
    assert!(!should_retry_redirect(9));
}

#[test]
fn terminal_guard() {
    assert_eq!(TIOCSTI_REQUEST, libc::TIOCSTI as u64);
    assert_eq!(TIOCLINUX_REQUEST, libc::TIOCLINUX as u64);
    let program = get_bpf_program("x86_64").unwrap();
    assert!(!program.is_empty());
    assert!(get_bpf_program("unknown-arch").is_err());
}

#[test]
fn manpage_command() {
    assert_eq!(get_manpage_cmd("OPTIONS"), "man -P 'less -p OPTIONS$' skeld");
    assert_eq!(
        get_manpage_cmd("String Interpolation"),
        "man -P 'less -p \"String Interpolation\"$' skeld"
    );
}

#[test]
fn placeholder_substitution() {
    let env = env_of(&[("FOO", "bar"), ("XDG_CONFIG_HOME", "/cfg")], Some("/home/u"));
    assert_eq!(substitute_placeholder("x$[FOO]y", &env, false).unwrap(), "xbary");
    assert_eq!(substitute_placeholder("$(CONFIG)/skeld", &env, false).unwrap(), "/cfg/skeld");
    assert_eq!(substitute_placeholder("~/w", &env, false).unwrap(), "/home/u/w");
    assert_eq!(substitute_placeholder("$[MISSING:alt]", &env, false).unwrap(), "alt");
    assert_eq!(
        substitute_placeholder("$[MISSING]", &env, false),
        Err(Error::EnvVar { name: "MISSING".to_string(), err: EnvVarError::NotPresent })
    );
    assert_eq!(substitute_placeholder("$[OOPS", &env, false), Err(Error::Illformed));
    assert_eq!(substitute_placeholder("$(NOPE)", &env, false), Err(Error::UnkownVariable));
    let no_home = env_of(&[], None);
    assert_eq!(substitute_placeholder("plain", &no_home, false), Err(Error::UnknownHomeDir));
    let odd_home = Env { vars: vec![], fallback_home: HomeFallback::NotUnicode };
    assert_eq!(substitute_placeholder("plain", &odd_home, false), Err(Error::InvalidHomeDir));
    // the home fallback applies when the variable is absent
    let env2 = env_of(&[], Some("/root"));
    assert_eq!(canonicalize_path("$(STATE)/skeld", &env2).unwrap(), "/root/.local/state//skeld");
    assert_eq!(canonicalize_path("relative", &env2), Err(Error::RelativePath));
}

#[test]
fn bwrap_argument_synthesis() {
    let mut tree: VirtualFSTree<()> = VirtualFSTree::new();
    tree.add_path(&vec!["etc".to_string()], VirtualFSEntryType::ReadOnly, ()).unwrap();
    tree.add_path(&vec!["work".to_string()], VirtualFSEntryType::ReadWrite, ()).unwrap();
    let params = SandboxParameters {
        fs_tree: tree,
        envvar_whitelist: EnvVarWhitelist::List(vec!["PATH".to_string(), "MISSING".to_string()]),
    };
    let command = skeld::command::Command {
        program: "sh".to_string(),
        args: vec!["-c".to_string(), "true".to_string()],
        working_dir: Some("/work".to_string()),
        detach: false,
    };
    let env = env_of(&[("PATH", "/bin")], Some("/home/u"));
    let args = params.get_bwrap_args(&command, &env, Some(9)).unwrap();
    let expected: Vec<String> = [
        "--seccomp", "9", "--clearenv", "--setenv", "PATH", "/bin", "--chdir", "/work", "--proc",
        "/proc", "--dev", "/dev", "--ro-bind-try", "/etc", "/etc", "--bind-try", "/work", "/work",
        "--unshare-ipc", "--unshare-pid", "--die-with-parent", "--", "sh", "-c", "true",
    ]
    .iter()
    .map(|s| s.to_string())
    .collect();
    assert_eq!(args, expected);
}

#[test]
fn include_path_selection() {
    let env = env_of(&[], Some("/home/u"));
    // an absolute include path stands by itself
    assert_eq!(
        canonicalize_include_path("/abs/file.toml", &env, vec![]).unwrap(),
        "/abs/file.toml"
    );
    // a relative one picks the unique existing candidate
    assert_eq!(
        canonicalize_include_path("rel.toml", &env, vec!["/cfg/include/rel.toml".to_string()])
            .unwrap(),
        "/cfg/include/rel.toml"
    );
    assert_eq!(
        canonicalize_include_path("rel.toml", &env, vec![]),
        Err(Error::IncludeFileNotFound)
    );
    assert_eq!(
        canonicalize_include_path(
            "rel.toml",
            &env,
            vec!["/a/rel.toml".to_string(), "/b/rel.toml".to_string()]
        ),
        Err(Error::MultipleMatchingIncludeFiles {
            files: vec!["/a/rel.toml".to_string(), "/b/rel.toml".to_string()]
        })
    );
    let env2 = env_of(&[("XDG_CONFIG_HOME", "/cfg"), ("XDG_DATA_HOME", "/data")], Some("/home/u"));
    assert_eq!(
        get_data_root_paths(&env2).unwrap(),
        vec!["/cfg/skeld".to_string(), "/data/skeld".to_string()]
    );
}

#[test]
fn bwrap_symlink_failure_names_entry() {
    // the path of a symlink entry whose target cannot be read from the
    // host is carried in the error
    let mut tree: VirtualFSTree<()> = VirtualFSTree::new();
    tree.add_path(
        &vec!["skeld-test-no-such-entry".to_string()],
        VirtualFSEntryType::Symlink,
        (),
    )
    .unwrap();
    let params = SandboxParameters { fs_tree: tree, envvar_whitelist: EnvVarWhitelist::All };
    let command = skeld::command::Command {
        program: "sh".to_string(),
        args: vec![],
        working_dir: None,
        detach: false,
    };
    let env = env_of(&[], Some("/home/u"));
    assert_eq!(
        params.get_bwrap_args(&command, &env, Some(3)),
        Err(SandboxError::UnreadableSymlink("/skeld-test-no-such-entry".to_string()))
    );
}

#[test]
fn small_helpers() {
    let area = Area::new(2, 5, 1, 3);
    assert!(area.contains((2, 1)));
    assert!(area.contains((4, 2)));
    assert!(!area.contains((5, 1)));
    assert!(!area.contains((2, 3)));
    let opt = MockOption::new("project");
    assert!(opt.would_eat(&"project".to_string()));
    assert!(!opt.would_eat(&"other".to_string()));
}
