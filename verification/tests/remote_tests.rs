use gitbutler_core::metrics::get_recent_commits_metric;
use gitbutler_core::model::{
    Author, BranchEntry, BranchWalk, CommitEntry, CommitTip, RemoteCommit, Target,
};
use gitbutler_core::refname::{Refname, RemoteRefname};
use gitbutler_core::remote::{
    branch_to_remote_branch, branch_to_remote_branch_data, commit_to_remote_commit,
    default_target, get_branch_data, list_remote_branches, RemoteError,
};

fn commit(id: &str, author: &str, files: &[&str], parents: &[&str], ts: i64) -> RemoteCommit {
    RemoteCommit {
        id: id.to_string(),
        description: format!("message of {id}").into_bytes(),
        created_at: ts as u128,
        author: Author {
            name: author.to_string(),
            email: format!("{author}@example.com"),
        },
        change_id: None,
        parent_ids: parents.iter().map(|p| p.to_string()).collect(),
        file_paths: files.iter().map(|f| f.to_string()).collect(),
    }
}

fn entry(id: &str, author: &str, files: &[&str], parents: &[&str], ts: i64) -> CommitEntry {
    CommitEntry {
        id: id.to_string(),
        message: format!("message of {id}").into_bytes(),
        timestamp_seconds: ts,
        author: Author {
            name: author.to_string(),
            email: format!("{author}@example.com"),
        },
        change_id: None,
        parent_ids: parents.iter().map(|p| p.to_string()).collect(),
        file_paths: files.iter().map(|f| f.to_string()).collect(),
    }
}

fn target() -> Target {
    Target {
        branch: RemoteRefname {
            remote: "origin".to_string(),
            branch: "main".to_string(),
        },
        sha: "base".to_string(),
    }
}

#[test]
fn metrics_three_commits_two_authors() {
    // C3 and C2 by X, C1 by Y, newest first, one file each
    let commits = vec![
        commit("C3", "X", &["f3"], &["C2"], 3),
        commit("C2", "X", &["f2"], &["C1"], 2),
        commit("C1", "Y", &["f1"], &["base"], 1),
    ];
    let (authors, files) = get_recent_commits_metric(&commits);
    assert_eq!(authors.len(), 2);
    assert_eq!(authors[0].name, "X");
    assert_eq!(authors[0].value, 2);
    assert_eq!(authors[0].commit_ids, vec!["C3".to_string(), "C2".to_string()]);
    assert_eq!(authors[1].name, "Y");
    assert_eq!(authors[1].value, 1);
    assert_eq!(authors[1].commit_ids, vec!["C1".to_string()]);
    assert_eq!(files.len(), 3);
    for f in &files {
        assert_eq!(f.value, 1);
    }
}

#[test]
fn metrics_counts_sum_and_sorted() {
    let commits = vec![
        commit("a", "X", &["f", "g"], &[], 1),
        commit("b", "Y", &["f"], &[], 2),
        commit("c", "X", &["f", "g", "h"], &[], 3),
        commit("d", "Z", &[], &[], 4),
        commit("e", "X", &["h"], &[], 5),
    ];
    let (authors, files) = get_recent_commits_metric(&commits);
    let author_sum: u64 = authors.iter().map(|m| m.value).sum();
    assert_eq!(author_sum, commits.len() as u64);
    let file_touches: usize = commits.iter().map(|c| c.file_paths.len()).sum();
    let file_sum: u64 = files.iter().map(|m| m.value).sum();
    assert_eq!(file_sum, file_touches as u64);
    for w in authors.windows(2) {
        assert!(w[0].value >= w[1].value);
    }
    for w in files.windows(2) {
        assert!(w[0].value >= w[1].value);
    }
    assert_eq!(files[0].name, "f");
    assert_eq!(files[0].value, 3);
    assert_eq!(
        files[0].commit_ids,
        vec!["a".to_string(), "b".to_string(), "c".to_string()]
    );
}

#[test]
fn metrics_empty_commit_list() {
    let (authors, files) = get_recent_commits_metric(&Vec::new());
    assert!(authors.is_empty());
    assert!(files.is_empty());
}

#[test]
fn metrics_path_repeated_within_commit() {
    let commits = vec![commit("a", "X", &["f", "f"], &[], 1)];
    let (_, files) = get_recent_commits_metric(&commits);
    assert_eq!(files.len(), 1);
    assert_eq!(files[0].value, 2);
    assert_eq!(files[0].commit_ids, vec!["a".to_string(), "a".to_string()]);
}

#[test]
fn default_target_present_and_absent() {
    let t = default_target(Some(target())).unwrap();
    assert_eq!(t.sha, "base");
    assert_eq!(default_target(None), Err(RemoteError::TargetNotSet));
}

#[test]
fn list_excludes_target_and_reserved_refs() {
    let feature_upstream = RemoteRefname {
        remote: "origin".to_string(),
        branch: "feature".to_string(),
    };
    let entries = vec![
        // the target branch itself: excluded
        BranchEntry {
            sha: Some("base".to_string()),
            name: Some(Refname::Remote(RemoteRefname {
                remote: "origin".to_string(),
                branch: "main".to_string(),
            })),
            tip: Some(CommitTip {
                timestamp_seconds: 10,
                author_name: Some("X".to_string()),
            }),
        },
        // reserved bookkeeping refs: excluded
        BranchEntry {
            sha: Some("i1".to_string()),
            name: Some(Refname::Local {
                branch: "gitbutler/integration".to_string(),
                remote_tracking: None,
            }),
            tip: Some(CommitTip {
                timestamp_seconds: 10,
                author_name: None,
            }),
        },
        BranchEntry {
            sha: Some("t1".to_string()),
            name: Some(Refname::Local {
                branch: "gitbutler/target".to_string(),
                remote_tracking: None,
            }),
            tip: Some(CommitTip {
                timestamp_seconds: 10,
                author_name: None,
            }),
        },
        // a broken ref (peeling failed): skipped, not an error
        BranchEntry {
            sha: Some("b1".to_string()),
            name: Some(Refname::Local {
                branch: "broken".to_string(),
                remote_tracking: None,
            }),
            tip: None,
        },
        // an unborn ref: skipped
        BranchEntry {
            sha: None,
            name: Some(Refname::Local {
                branch: "unborn".to_string(),
                remote_tracking: None,
            }),
            tip: Some(CommitTip {
                timestamp_seconds: 10,
                author_name: None,
            }),
        },
        // an ordinary local branch: kept
        BranchEntry {
            sha: Some("f1".to_string()),
            name: Some(Refname::Local {
                branch: "feature".to_string(),
                remote_tracking: Some(feature_upstream.clone()),
            }),
            tip: Some(CommitTip {
                timestamp_seconds: 7,
                author_name: Some("Y".to_string()),
            }),
        },
    ];
    let r = list_remote_branches(&Some(target()), &entries).unwrap();
    assert_eq!(r.len(), 1);
    assert_eq!(r[0].sha, "f1");
    assert_eq!(r[0].upstream, Some(feature_upstream));
    assert_eq!(r[0].last_commit_timestamp_ms, Some(7000));
    assert_eq!(r[0].last_commit_author, Some("Y".to_string()));
}

#[test]
fn list_without_target_fails() {
    let r = list_remote_branches(&None, &Vec::new());
    assert_eq!(r, Err(RemoteError::TargetNotSet));
}

#[test]
fn local_branch_of_target_name_is_kept() {
    // only the remote-qualified target is the trunk; a local branch that
    // happens to share its short name stays listed
    let entries = vec![BranchEntry {
        sha: Some("l1".to_string()),
        name: Some(Refname::Local {
            branch: "main".to_string(),
            remote_tracking: None,
        }),
        tip: Some(CommitTip {
            timestamp_seconds: 1,
            author_name: None,
        }),
    }];
    let r = list_remote_branches(&Some(target()), &entries).unwrap();
    assert_eq!(r.len(), 1);
    assert_eq!(r[0].sha, "l1");
}

#[test]
fn negative_timestamp_drops_millisecond_field() {
    let e = BranchEntry {
        sha: Some("s".to_string()),
        name: Some(Refname::Local {
            branch: "b".to_string(),
            remote_tracking: None,
        }),
        tip: Some(CommitTip {
            timestamp_seconds: -1,
            author_name: Some("X".to_string()),
        }),
    };
    let b = branch_to_remote_branch(&e).unwrap();
    assert_eq!(b.last_commit_timestamp_ms, None);
    assert_eq!(b.last_commit_author, Some("X".to_string()));
}

#[test]
fn branch_at_target_has_empty_divergence() {
    // tip == base: the walker reports an empty ahead set and distance 0
    let walk = BranchWalk {
        sha: Some("base".to_string()),
        name: Refname::Remote(RemoteRefname {
            remote: "origin".to_string(),
            branch: "main".to_string(),
        }),
        ahead: Vec::new(),
        behind: 0,
    };
    let d = branch_to_remote_branch_data(&walk).unwrap();
    assert_eq!(d.behind, 0);
    assert!(d.commits.is_empty());
    assert_eq!(d.fork_point, None);
    assert!(d.recent_authors.is_empty());
    assert!(d.recent_files.is_empty());
}

#[test]
fn three_commits_ahead_scenario() {
    // C3 -> C2 -> C1 -> base; X made C3 and C2, Y made C1
    let walk = BranchWalk {
        sha: Some("C3".to_string()),
        name: Refname::Local {
            branch: "feature".to_string(),
            remote_tracking: None,
        },
        ahead: vec![
            entry("C3", "X", &["f3"], &["C2"], 3),
            entry("C2", "X", &["f2"], &["C1"], 2),
            entry("C1", "Y", &["f1"], &["base"], 1),
        ],
        behind: 0,
    };
    let d = branch_to_remote_branch_data(&walk).unwrap();
    assert_eq!(d.sha, "C3");
    assert_eq!(d.commits.len(), 3);
    assert_eq!(d.commits[0].id, "C3");
    assert_eq!(d.commits[2].id, "C1");
    // the base commit itself is never in the list
    assert!(d.commits.iter().all(|c| c.id != "base"));
    // the fork point is the first parent of the oldest ahead commit
    assert_eq!(d.fork_point, Some("base".to_string()));
    assert_eq!(d.recent_authors.len(), 2);
    assert_eq!(d.recent_authors[0].name, "X");
    assert_eq!(d.recent_authors[0].value, 2);
    assert_eq!(
        d.recent_authors[0].commit_ids,
        vec!["C3".to_string(), "C2".to_string()]
    );
    assert_eq!(d.recent_authors[1].name, "Y");
    assert_eq!(d.recent_authors[1].value, 1);
}

#[test]
fn oldest_commit_without_parent_has_no_fork_point() {
    let walk = BranchWalk {
        sha: Some("C1".to_string()),
        name: Refname::Local {
            branch: "root".to_string(),
            remote_tracking: None,
        },
        ahead: vec![entry("C1", "X", &[], &[], 1)],
        behind: 4,
    };
    let d = branch_to_remote_branch_data(&walk).unwrap();
    assert_eq!(d.fork_point, None);
    assert_eq!(d.behind, 4);
}

#[test]
fn unborn_branch_yields_no_data() {
    let walk = BranchWalk {
        sha: None,
        name: Refname::Local {
            branch: "unborn".to_string(),
            remote_tracking: None,
        },
        ahead: Vec::new(),
        behind: 0,
    };
    assert!(branch_to_remote_branch_data(&walk).is_none());
}

#[test]
fn commit_projection_carries_fields_through() {
    let mut e = entry("C9", "X", &["src/a.rs", "b.txt"], &["pa", "pb"], 1700000000);
    e.change_id = Some("change-123".to_string());
    let c = commit_to_remote_commit(&e);
    assert_eq!(c.id, "C9");
    assert_eq!(c.description, b"message of C9".to_vec());
    assert_eq!(c.created_at, 1700000000u128);
    assert_eq!(c.author.name, "X");
    assert_eq!(c.author.email, "X@example.com");
    assert_eq!(c.change_id, Some("change-123".to_string()));
    assert_eq!(c.parent_ids, vec!["pa".to_string(), "pb".to_string()]);
    assert_eq!(c.file_paths, vec!["src/a.rs".to_string(), "b.txt".to_string()]);
}

#[test]
fn zero_timestamp_is_representable() {
    let e = BranchEntry {
        sha: Some("s".to_string()),
        name: Some(Refname::Local {
            branch: "b".to_string(),
            remote_tracking: None,
        }),
        tip: Some(CommitTip {
            timestamp_seconds: 0,
            author_name: None,
        }),
    };
    let b = branch_to_remote_branch(&e).unwrap();
    assert_eq!(b.last_commit_timestamp_ms, Some(0));
}

#[test]
fn get_branch_data_error_cases() {
    let walk = BranchWalk {
        sha: Some("C1".to_string()),
        name: Refname::Local {
            branch: "b".to_string(),
            remote_tracking: None,
        },
        ahead: vec![entry("C1", "X", &[], &["base"], 1)],
        behind: 2,
    };
    assert_eq!(
        get_branch_data(&None, &Some(walk.clone())),
        Err(RemoteError::TargetNotSet)
    );
    assert_eq!(
        get_branch_data(&Some(target()), &None),
        Err(RemoteError::BranchNotFound)
    );
    let unborn = BranchWalk {
        sha: None,
        name: Refname::Local {
            branch: "u".to_string(),
            remote_tracking: None,
        },
        ahead: Vec::new(),
        behind: 0,
    };
    assert_eq!(
        get_branch_data(&Some(target()), &Some(unborn)),
        Err(RemoteError::NoBranchData)
    );
    let d = get_branch_data(&Some(target()), &Some(walk)).unwrap();
    assert_eq!(d.behind, 2);
    assert_eq!(d.fork_point, Some("base".to_string()));
}
