use docs_manager::config::Config;
use docs_manager::globs::compile_patterns;
use docs_manager::renamer::{
    is_subfolder_allowed, plan_conflicts, plan_renames, DirListing, FileEntry,
};

const DATE: &str = "2026-02-17-10-30-00";
const FORMAT: &str = "%Y-%m-%d-%H-%M-%S";

fn pats(texts: Vec<&str>) -> Vec<glob::Pattern> {
    let owned: Vec<String> = texts.into_iter().map(String::from).collect();
    compile_patterns(&owned)
}

fn config(allow: Vec<&str>, deny: Vec<&str>, depth: usize) -> Config {
    Config {
        docs_dir: "root".to_string(),
        format: FORMAT.to_string(),
        extensions: vec!["md".to_string()],
        allow: allow.into_iter().map(String::from).collect(),
        deny: deny.into_iter().map(String::from).collect(),
        depth,
    }
}

fn file(name: &str) -> FileEntry {
    FileEntry {
        name: name.to_string(),
        date_str: DATE.to_string(),
    }
}

fn dir(rel: &str, names: Vec<&str>, subdirs: Vec<&str>) -> DirListing {
    DirListing {
        rel_path: rel.to_string(),
        files: names.into_iter().map(file).collect(),
        subdirs: subdirs.into_iter().map(String::from).collect(),
    }
}

#[test]
fn test_is_subfolder_allowed_empty_allow() {
    let allow = pats(vec![]);
    let deny = pats(vec![]);
    assert!(!is_subfolder_allowed("notes", &allow, &deny));
}

#[test]
fn test_is_subfolder_allowed_wildcard() {
    let allow = pats(vec!["*"]);
    let deny = pats(vec![]);
    assert!(is_subfolder_allowed("anything", &allow, &deny));
}

#[test]
fn test_is_subfolder_allowed_specific() {
    let allow = pats(vec!["running-knowledge"]);
    let deny = pats(vec![]);
    assert!(is_subfolder_allowed("running-knowledge", &allow, &deny));
    assert!(!is_subfolder_allowed("other", &allow, &deny));
}

#[test]
fn test_is_subfolder_allowed_glob() {
    let allow = pats(vec!["running-*"]);
    let deny = pats(vec![]);
    assert!(is_subfolder_allowed("running-knowledge", &allow, &deny));
    assert!(is_subfolder_allowed("running-notes", &allow, &deny));
    assert!(!is_subfolder_allowed("archive", &allow, &deny));
}

#[test]
fn test_deny_overrides_allow() {
    let allow = pats(vec!["*"]);
    let deny = pats(vec!["archive"]);
    assert!(is_subfolder_allowed("notes", &allow, &deny));
    assert!(!is_subfolder_allowed("archive", &allow, &deny));
}

#[test]
fn test_is_subfolder_allowed_nested_path() {
    let allow = pats(vec!["notes"]);
    let deny = pats(vec![]);
    assert!(is_subfolder_allowed("notes/sub", &allow, &deny));
    assert!(!is_subfolder_allowed("other/sub", &allow, &deny));
}

#[test]
fn test_invalid_pattern_is_dropped() {
    let allow = pats(vec!["[", "notes"]);
    assert_eq!(allow.len(), 1);
    let deny = pats(vec![]);
    assert!(is_subfolder_allowed("notes", &allow, &deny));
    assert!(!is_subfolder_allowed("other", &allow, &deny));
}

#[test]
fn test_plan_renames_skips_subfolder_by_default() {
    let cfg = config(vec![], vec![], 1);
    let dirs = vec![
        dir("", vec!["root-file.md"], vec!["notes"]),
        dir("notes", vec!["nested-file.md"], vec![]),
    ];
    let ops = plan_renames(&cfg, &dirs);
    assert_eq!(ops.len(), 1);
    assert!(ops[0].from.contains("root-file"));
}

#[test]
fn test_plan_renames_includes_allowed_subfolder() {
    let cfg = config(vec!["notes"], vec![], 1);
    let dirs = vec![
        dir("", vec!["root-file.md"], vec!["notes"]),
        dir("notes", vec!["nested-file.md"], vec![]),
    ];
    let ops = plan_renames(&cfg, &dirs);
    assert_eq!(ops.len(), 2);
}

#[test]
fn test_plan_renames_in_place() {
    let cfg = config(vec!["notes"], vec![], 1);
    let dirs = vec![
        dir("", vec![], vec!["notes"]),
        dir("notes", vec!["my-doc.md"], vec![]),
    ];
    let ops = plan_renames(&cfg, &dirs);
    assert_eq!(ops.len(), 1);
    assert!(ops[0].to.starts_with("root/notes/"));
    assert_eq!(ops[0].from, "root/notes/my-doc.md");
    assert_eq!(ops[0].to, format!("root/notes/{DATE}-my-doc.md"));
}

#[test]
fn test_plan_renames_deny_overrides_allow() {
    let cfg = config(vec!["*"], vec!["archive"], 1);
    let dirs = vec![
        dir("", vec![], vec!["notes", "archive"]),
        dir("notes", vec!["ok.md"], vec![]),
        dir("archive", vec!["nope.md"], vec![]),
    ];
    let ops = plan_renames(&cfg, &dirs);
    assert_eq!(ops.len(), 1);
    assert!(ops[0].from.contains("notes"));
}

#[test]
fn test_extension_filtering_excludes_other_extensions() {
    let cfg = config(vec![], vec![], 1);
    let dirs = vec![dir("", vec!["notes.txt", "a.md", "no-extension"], vec![])];
    let ops = plan_renames(&cfg, &dirs);
    assert_eq!(ops.len(), 1);
    assert_eq!(ops[0].from, "root/a.md");
}

#[test]
fn test_depth_bound_excludes_deeper_directories() {
    let cfg = config(vec!["*"], vec![], 1);
    let dirs = vec![
        dir("", vec![], vec!["sub"]),
        dir("sub", vec!["a.md"], vec!["sub2"]),
        dir("sub/sub2", vec!["file.md"], vec![]),
    ];
    let ops = plan_renames(&cfg, &dirs);
    assert_eq!(ops.len(), 1);
    assert_eq!(ops[0].from, "root/sub/a.md");
}

#[test]
fn test_default_exclusion_root_only() {
    let cfg = config(vec![], vec![], 1);
    let dirs = vec![
        dir("", vec!["a.md"], vec!["sub"]),
        dir("sub", vec!["b.md"], vec![]),
    ];
    let ops = plan_renames(&cfg, &dirs);
    assert_eq!(ops.len(), 1);
    assert_eq!(ops[0].from, "root/a.md");
}

#[test]
fn test_conflict_skips_source_and_leaves_destination() {
    let cfg = config(vec![], vec![], 1);
    let taken = format!("{DATE}-a-b.md");
    let dirs = vec![dir("", vec!["a b.md", taken.as_str()], vec![])];
    let ops = plan_renames(&cfg, &dirs);
    // The source is excluded, and the file at the destination, being already
    // canonical, is not planned either.
    assert_eq!(ops.len(), 0);
    // The collision is reported.
    let confs = plan_conflicts(&cfg, &dirs);
    assert_eq!(confs.len(), 1);
    assert_eq!(confs[0].from, "root/a b.md");
    assert_eq!(confs[0].to, format!("root/{DATE}-a-b.md"));
}

#[test]
fn test_intra_plan_collision_second_source_excluded() {
    // Two sources that would map to one destination: the first is planned,
    // the second is excluded and reported, so planned destinations never
    // collide with each other.
    let cfg = config(vec![], vec![], 1);
    let dirs = vec![dir("", vec!["a b.md", "a-b.md"], vec![])];
    let ops = plan_renames(&cfg, &dirs);
    assert_eq!(ops.len(), 1);
    assert_eq!(ops[0].from, "root/a b.md");
    assert_eq!(ops[0].to, format!("root/{DATE}-a-b.md"));
    let confs = plan_conflicts(&cfg, &dirs);
    assert_eq!(confs.len(), 1);
    assert_eq!(confs[0].from, "root/a-b.md");
}

#[test]
fn test_no_conflicts_reported_without_collision() {
    let cfg = config(vec![], vec![], 1);
    let dirs = vec![dir("", vec!["a.md", "b.md"], vec![])];
    let ops = plan_renames(&cfg, &dirs);
    assert_eq!(ops.len(), 2);
    assert_ne!(ops[0].to, ops[1].to);
    assert_eq!(plan_conflicts(&cfg, &dirs).len(), 0);
}

#[test]
fn test_conflict_with_subdirectory_name() {
    let cfg = config(vec![], vec![], 1);
    let taken = format!("{DATE}-a.md");
    let dirs = vec![dir("", vec!["a.md"], vec![taken.as_str()])];
    let ops = plan_renames(&cfg, &dirs);
    assert_eq!(ops.len(), 0);
    assert_eq!(plan_conflicts(&cfg, &dirs).len(), 1);
}

#[test]
fn test_already_canonical_file_is_skipped() {
    let cfg = config(vec![], vec![], 1);
    let name = format!("{DATE}-my-title.md");
    let dirs = vec![dir("", vec![name.as_str()], vec![])];
    let ops = plan_renames(&cfg, &dirs);
    assert_eq!(ops.len(), 0);
}

#[test]
fn test_plan_twice_same_plan() {
    let cfg = config(vec!["*"], vec!["archive"], 2);
    let dirs = vec![
        dir("", vec!["Root File.md", "x.txt"], vec!["notes", "archive"]),
        dir("notes", vec!["b.md"], vec![]),
        dir("archive", vec!["c.md"], vec![]),
    ];
    let ops1 = plan_renames(&cfg, &dirs);
    let ops2 = plan_renames(&cfg, &dirs);
    assert_eq!(ops1.len(), ops2.len());
    for (a, b) in ops1.iter().zip(ops2.iter()) {
        assert_eq!(a.from, b.from);
        assert_eq!(a.to, b.to);
    }
}

fn apply_plan(dirs: &[DirListing], renamed: &[(String, String)]) -> Vec<DirListing> {
    dirs.iter()
        .map(|d| DirListing {
            rel_path: d.rel_path.clone(),
            files: d
                .files
                .iter()
                .map(|f| {
                    let prefix = if d.rel_path.is_empty() {
                        format!("root/{}", f.name)
                    } else {
                        format!("root/{}/{}", d.rel_path, f.name)
                    };
                    let new_name = renamed
                        .iter()
                        .find(|(from, _)| *from == prefix)
                        .map(|(_, to)| to.rsplit('/').next().unwrap().to_string());
                    FileEntry {
                        name: new_name.unwrap_or_else(|| f.name.clone()),
                        date_str: f.date_str.clone(),
                    }
                })
                .collect(),
            subdirs: d.subdirs.clone(),
        })
        .collect()
}

#[test]
fn test_plan_execute_plan_is_empty() {
    let cfg = config(vec!["notes"], vec![], 1);
    let dirs = vec![
        dir("", vec!["Root File.md", "keep.txt"], vec!["notes"]),
        dir("notes", vec!["My Doc!! Title.md", "2023-01-01-old-title.md"], vec![]),
    ];
    let ops = plan_renames(&cfg, &dirs);
    assert_eq!(ops.len(), 3);
    let renamed: Vec<(String, String)> =
        ops.iter().map(|op| (op.from.clone(), op.to.clone())).collect();
    let after = apply_plan(&dirs, &renamed);
    let ops2 = plan_renames(&cfg, &after);
    assert_eq!(ops2.len(), 0);
}

#[test]
fn test_plan_with_rendered_timestamps() {
    // End to end through chrono's rendering: the planner renames the file,
    // and planning the renamed state proposes nothing.
    let cfg = config(vec![], vec![], 1);
    let entry = FileEntry::new("My Notes.md".to_string(), 1_750_000_000, FORMAT);
    let dirs = vec![DirListing {
        rel_path: String::new(),
        files: vec![entry],
        subdirs: vec![],
    }];
    let ops = plan_renames(&cfg, &dirs);
    assert_eq!(ops.len(), 1);
    let new_name = ops[0].to.rsplit('/').next().unwrap().to_string();
    assert!(new_name.ends_with("-my-notes.md"));
    let after = vec![DirListing {
        rel_path: String::new(),
        files: vec![FileEntry::new(new_name, 1_750_000_000, FORMAT)],
        subdirs: vec![],
    }];
    let ops2 = plan_renames(&cfg, &after);
    assert_eq!(ops2.len(), 0);
}

#[test]
fn test_date_prefixed_stem_not_restamped() {
    let cfg = config(vec![], vec![], 1);
    let dirs = vec![dir("", vec!["2023-01-01-old-title.md"], vec![])];
    let ops = plan_renames(&cfg, &dirs);
    assert_eq!(ops.len(), 1);
    assert_eq!(ops[0].to, format!("root/{DATE}-old-title.md"));
}
