use obsidian_cli::cli::{CopyArgs, DeleteArgs, LockArgs, MoveArgs, ProppatchArgs, UnlockArgs};
use obsidian_cli::commands::CommandError;
use obsidian_cli::config::{AppConfig, BehaviorConfig, InitConfig};
use obsidian_cli::pathguard::PathError;
use obsidian_cli::writes::{
    check_new_note_target, mkdir_plan, names_exhausted_error, note_candidate, note_path_after,
    note_path_first, plan_copy, plan_delete, plan_lock, plan_move, plan_proppatch, plan_unlock,
    NotePathStep,
};

fn behavior() -> BehaviorConfig {
    AppConfig::from_init(InitConfig {
        url: "https://example.com/webdav/".to_string(),
        username: "hermes".to_string(),
        password_env: "PW".to_string(),
        write_dir: "Inbox/Hermes".to_string(),
    })
    .behavior
}

fn invalid_args(r: Result<impl std::fmt::Debug, CommandError>) -> String {
    match r {
        Err(CommandError::InvalidArgs(m)) => m,
        other => panic!("expected invalid args, got {other:?}"),
    }
}

#[test]
fn note_names_are_plain_then_numbered() {
    assert_eq!(
        note_candidate(" /Inbox/Hermes/ ", "fixed", "test", 0).unwrap(),
        "Inbox/Hermes/fixed-test.md"
    );
    assert_eq!(
        note_candidate("Inbox/Hermes", "fixed", "test", 1).unwrap(),
        "Inbox/Hermes/fixed-test-1.md"
    );
    assert_eq!(
        note_candidate("Inbox/Hermes", "2026-04-24-153012", "hermes-gateway-debug", 999).unwrap(),
        "Inbox/Hermes/2026-04-24-153012-hermes-gateway-debug-999.md"
    );
    assert!(note_candidate("Inbox/Hermes", "fixed", "test", 1000).is_none());
}

#[test]
fn unique_note_path_probes_until_a_free_name() {
    assert_eq!(
        note_path_first("Inbox/Hermes", "fixed", "test", false),
        NotePathStep::Write("Inbox/Hermes/fixed-test.md".to_string())
    );
    assert_eq!(
        note_path_first("Inbox/Hermes", "fixed", "test", true),
        NotePathStep::Probe {
            path: "Inbox/Hermes/fixed-test.md".to_string(),
            attempt: 0,
        }
    );
    assert_eq!(
        note_path_after("Inbox/Hermes", "fixed", "test", 0, true),
        NotePathStep::Probe {
            path: "Inbox/Hermes/fixed-test-1.md".to_string(),
            attempt: 1,
        }
    );
    assert_eq!(
        note_path_after("Inbox/Hermes", "fixed", "test", 1, false),
        NotePathStep::Write("Inbox/Hermes/fixed-test-1.md".to_string())
    );
    assert_eq!(
        note_path_after("Inbox/Hermes", "fixed", "test", 999, true),
        NotePathStep::Exhausted
    );
    assert_eq!(
        invalid_args(Err::<(), _>(names_exhausted_error())),
        "could not generate a unique note path"
    );
}

#[test]
fn distinct_attempts_give_distinct_names() {
    let names: Vec<String> = (0..1000)
        .map(|k| note_candidate("Inbox/Hermes", "fixed", "test", k).unwrap())
        .collect();
    let mut sorted = names.clone();
    sorted.sort();
    sorted.dedup();
    assert_eq!(sorted.len(), names.len());
}

#[test]
fn existing_note_is_replaced_only_with_both_overwrite_switches() {
    assert!(check_new_note_target(false, false, false, "a.md").is_ok());
    assert!(check_new_note_target(true, true, true, "a.md").is_ok());
    for (overwrite, allow) in [(false, false), (true, false), (false, true)] {
        let err = check_new_note_target(true, overwrite, allow, "Inbox/Hermes/a.md").unwrap_err();
        assert_eq!(err.message(), "file already exists: Inbox/Hermes/a.md");
        assert_eq!(err.code(), "file_already_exists");
    }
}

#[test]
fn mkdir_parents_stays_inside_the_write_directory() {
    let allowed = vec!["Inbox/Hermes".to_string()];
    assert_eq!(
        mkdir_plan("Inbox/Hermes/debug/deep", &allowed).unwrap(),
        vec!["Inbox/Hermes/debug", "Inbox/Hermes/debug/deep"]
    );
    assert_eq!(
        mkdir_plan("Inbox/Hermes", &allowed).unwrap(),
        vec!["Inbox/Hermes"]
    );
    assert_eq!(
        mkdir_plan("Inbox//Hermes/./a/", &allowed).unwrap(),
        vec!["Inbox/Hermes/a"]
    );
    let plan = mkdir_plan("Inbox/Hermes/x/y/z", &allowed).unwrap();
    for dir in &plan {
        assert!(dir == "Inbox/Hermes" || dir.starts_with("Inbox/Hermes/"));
    }
    assert_eq!(plan.last().unwrap(), "Inbox/Hermes/x/y/z");
}

#[test]
fn mkdir_parents_refuses_targets_outside_the_write_directories() {
    let allowed = vec!["Inbox/Hermes/".to_string(), "Inbox/Agent".to_string()];
    assert_eq!(
        mkdir_plan("Inbox/Other/x", &allowed).unwrap_err(),
        PathError::WriteNotAllowed {
            path: "Inbox/Other/x".to_string(),
            allowed: "Inbox/Hermes/, Inbox/Agent".to_string(),
        }
    );
    assert_eq!(
        mkdir_plan("Inbox/Agent/x", &allowed).unwrap(),
        vec!["Inbox/Agent/x"]
    );
    assert_eq!(
        mkdir_plan("../x", &allowed).unwrap_err(),
        PathError::Traversal("../x".to_string())
    );
}

#[test]
fn delete_and_move_require_their_config_flags() {
    let b = behavior();
    let delete = DeleteArgs {
        path: "Inbox/Hermes/old.md".to_string(),
        json: false,
    };
    assert_eq!(
        invalid_args(plan_delete(&delete, &b)),
        "delete requires behavior.allow_delete = true"
    );
    let mv = MoveArgs {
        source: "Inbox/Hermes/old.md".to_string(),
        dest: "Inbox/Hermes/new.md".to_string(),
        overwrite: true,
        json: false,
    };
    assert_eq!(
        invalid_args(plan_move(&mv, &b)),
        "move requires behavior.allow_move = true"
    );

    let mut b = behavior();
    b.allow_delete = true;
    b.allow_move = true;
    assert_eq!(plan_delete(&delete, &b).unwrap(), "Inbox/Hermes/old.md");
    assert_eq!(
        plan_move(&mv, &b).unwrap(),
        ("Inbox/Hermes/old.md".to_string(), "Inbox/Hermes/new.md".to_string())
    );
}

#[test]
fn method_plans_refuse_formal_directory_paths() {
    let mut b = behavior();
    b.allow_delete = true;
    b.allow_move = true;
    let delete = DeleteArgs {
        path: "Notes/formal.md".to_string(),
        json: false,
    };
    let err = plan_delete(&delete, &b).unwrap_err();
    assert_eq!(err.message(), "protected path is not writable: Notes/formal.md");
    assert_eq!(err.code(), "invalid_path");

    let copy = CopyArgs {
        source: "Inbox/Hermes/a.md".to_string(),
        dest: "Inbox/Other/b.md".to_string(),
        overwrite: false,
        depth: "infinity".to_string(),
        json: false,
    };
    let err = plan_copy(&copy, &b).unwrap_err();
    assert_eq!(err.code(), "write_not_allowed");
    let copy = CopyArgs {
        source: "Inbox/Hermes/a.md".to_string(),
        dest: "Inbox/Hermes/b.md".to_string(),
        overwrite: false,
        depth: "0".to_string(),
        json: false,
    };
    assert_eq!(
        plan_copy(&copy, &b).unwrap(),
        ("Inbox/Hermes/a.md".to_string(), "Inbox/Hermes/b.md".to_string())
    );
    let proppatch = ProppatchArgs {
        path: "Daily/today.md".to_string(),
        xml: Some("<propertyupdate />".to_string()),
        xml_file: None,
        json: false,
    };
    assert_eq!(plan_proppatch(&proppatch, &b).unwrap_err().code(), "invalid_path");
}

fn lock_args(timeout: &str) -> LockArgs {
    LockArgs {
        path: "Inbox/Hermes/meta.md".to_string(),
        scope: "exclusive".to_string(),
        owner: Some("hermes".to_string()),
        timeout: timeout.to_string(),
        depth: "0".to_string(),
        json: true,
    }
}

#[test]
fn lock_timeout_is_infinite_or_a_positive_integer() {
    let b = behavior();
    for ok in ["infinite", "Infinite", "120", "007"] {
        assert_eq!(plan_lock(&lock_args(ok), &b).unwrap(), "Inbox/Hermes/meta.md", "{ok}");
    }
    for bad in ["", "0", "000", "-5", "12s", "Second-120", " 120"] {
        assert_eq!(
            invalid_args(plan_lock(&lock_args(bad), &b)),
            "lock timeout must be \"infinite\" or a positive integer",
            "{bad}"
        );
    }
}

#[test]
fn unlock_needs_a_token() {
    let b = behavior();
    let mut args = UnlockArgs {
        path: "Inbox/Hermes/meta.md".to_string(),
        token: "  ".to_string(),
        json: false,
    };
    assert_eq!(
        invalid_args(plan_unlock(&args, &b)),
        "unlock requires a non-empty token"
    );
    args.token = "opaquelocktoken:123".to_string();
    assert_eq!(plan_unlock(&args, &b).unwrap(), "Inbox/Hermes/meta.md");
}

#[test]
fn default_config_refuses_delete_move_and_overwrite() {
    let b = behavior();
    assert!(!b.allow_delete && !b.allow_move && !b.allow_overwrite);
    let delete = DeleteArgs {
        path: "Inbox/Hermes/a.md".to_string(),
        json: false,
    };
    assert!(plan_delete(&delete, &b).is_err());
    assert!(check_new_note_target(true, true, b.allow_overwrite, "Inbox/Hermes/a.md").is_err());
}
