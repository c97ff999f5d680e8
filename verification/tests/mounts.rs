use host::mounts::{
    project_path, require, start, Cascade, CascadeError, Loaded, MountDecl, ProjectConfig,
    ResolvedProject, Step,
};
use std::collections::HashMap;
use std::path::{Component, Path, PathBuf};

/// Reads a config the way the host's own reader does: a `[project]` name and
/// `[[mounts]]` with a path and a branch that defaults to `main`.
fn read_config(text: &str) -> Result<ProjectConfig, String> {
    let table: toml::Table = text.parse().map_err(|e: toml::de::Error| e.to_string())?;
    let name = table
        .get("project")
        .and_then(|p| p.get("name"))
        .and_then(|n| n.as_str())
        .ok_or("missing project name")?
        .to_string();
    let mut mounts = Vec::new();
    if let Some(list) = table.get("mounts").and_then(|m| m.as_array()) {
        for m in list {
            let path = m.get("path").and_then(|p| p.as_str()).ok_or("missing mount path")?;
            let branch = m.get("branch").and_then(|b| b.as_str()).unwrap_or("main");
            mounts.push(MountDecl { path: path.to_string(), branch: branch.to_string() });
        }
    }
    Ok(ProjectConfig { name, mounts })
}

/// Canonicalization is lexical normalization, so relative mount paths work
/// without touching the filesystem.
fn normalize(path: &Path) -> PathBuf {
    let mut out = PathBuf::new();
    for component in path.components() {
        match component {
            Component::ParentDir => {
                out.pop();
            }
            Component::CurDir => {}
            other => out.push(other),
        }
    }
    out
}

fn walk(active: &str, projects: Vec<(&str, &str)>) -> Result<Cascade, CascadeError> {
    let map: HashMap<PathBuf, String> =
        projects.into_iter().map(|(p, text)| (PathBuf::from(p), text.to_string())).collect();
    let mut step = start(active);
    loop {
        match step {
            Step::Load { walk, path } => {
                let canonical = normalize(Path::new(&path));
                let loaded = match map.get(&canonical) {
                    Some(text) => Loaded::Found {
                        canonical: canonical.to_string_lossy().into_owned(),
                        config: read_config(text),
                    },
                    None => Loaded::Failed { message: "no such project".into() },
                };
                step = walk.resume(loaded);
            }
            Step::Done(result) => return result,
        }
    }
}

const AGENTS: &str = r#"
[project]
name = "agents"

[[mounts]]
path = "../host"
branch = "main"

[[mounts]]
path = "../engine"
"#;
const HOST: &str = r#"
[project]
name = "host"

[[mounts]]
path = "../engine"
branch = "v1"
"#;
const ENGINE: &str = "[project]\nname = \"engine\"\n";

#[test]
fn walks_transitively_and_dedupes_by_canonical_path() {
    // Diamond: agents -> host -> engine and agents -> engine directly.
    let cascade = walk("/r/agents", vec![("/r/agents", AGENTS), ("/r/host", HOST), ("/r/engine", ENGINE)]).unwrap();
    assert_eq!(cascade.active.name, "agents");
    let names: Vec<&str> = cascade.peers.iter().map(|p| p.name.as_str()).collect();
    assert_eq!(names, ["host", "engine"], "each project once, first-encountered order");
}

#[test]
fn first_encountered_branch_pins_the_mount() {
    // agents declares engine on main before host's v1 declaration is seen.
    let cascade = walk("/r/agents", vec![("/r/agents", AGENTS), ("/r/host", HOST), ("/r/engine", ENGINE)]).unwrap();
    let engine = cascade.peers.iter().find(|p| p.name == "engine").unwrap();
    assert_eq!(engine.branch, "main");
}

#[test]
fn cycles_reject() {
    let a = "[project]\nname = \"a\"\n[[mounts]]\npath = \"../b\"\n";
    let b = "[project]\nname = \"b\"\n[[mounts]]\npath = \"../a\"\n";
    assert_eq!(
        walk("/r/a", vec![("/r/a", a), ("/r/b", b)]),
        Err(CascadeError::Cycle { path: "/r/a".into() })
    );
}

#[test]
fn missing_mount_is_a_load_error() {
    match walk("/r/agents", vec![("/r/agents", AGENTS)]) {
        Err(CascadeError::Load { path, .. }) => assert_eq!(path, "/r/agents/../host"),
        other => panic!("expected load error, got {other:?}"),
    }
}

#[test]
fn require_names_the_missing_project() {
    let cascade = walk("/r/engine", vec![("/r/engine", ENGINE)]).unwrap();
    assert!(require(&cascade, &["engine"]).is_ok());
    assert_eq!(
        require(&cascade, &["host", "engine"]),
        Err(CascadeError::MissingRequired { name: "host".into() })
    );
}

#[test]
fn the_nearest_declarer_pins_even_when_a_deeper_one_is_loaded_first() {
    let top = "[project]\nname = \"top\"\n[[mounts]]\npath = \"../mid\"\n[[mounts]]\npath = \"../leaf\"\nbranch = \"near\"\n";
    let mid = "[project]\nname = \"mid\"\n[[mounts]]\npath = \"../leaf\"\nbranch = \"far\"\n";
    let leaf = "[project]\nname = \"leaf\"\n";
    let cascade = walk("/r/top", vec![("/r/top", top), ("/r/mid", mid), ("/r/leaf", leaf)]).unwrap();
    assert_eq!(
        cascade,
        Cascade {
            active: ResolvedProject { path: "/r/top".into(), name: "top".into(), branch: "main".into() },
            peers: vec![
                ResolvedProject { path: "/r/mid".into(), name: "mid".into(), branch: "main".into() },
                ResolvedProject { path: "/r/leaf".into(), name: "leaf".into(), branch: "near".into() },
            ],
        }
    );
    assert_eq!(project_path(&cascade, "leaf"), Some("/r/leaf".to_string()));
    assert_eq!(project_path(&cascade, "top"), Some("/r/top".to_string()));
    assert_eq!(project_path(&cascade, "nobody"), None);
}

#[test]
fn an_unreadable_config_is_a_parse_error_and_a_missing_active_a_load_error() {
    assert_eq!(
        walk("/r/x", vec![("/r/x", "not = [toml")]).map_err(|e| matches!(e, CascadeError::Parse { .. })),
        Err(true)
    );
    assert_eq!(
        walk("/r/none", vec![]),
        Err(CascadeError::Load { path: "/r/none".into(), message: "no such project".into() })
    );
}

#[test]
fn a_project_mounting_itself_is_a_cycle() {
    let selfish = "[project]\nname = \"s\"\n[[mounts]]\npath = \".\"\n";
    assert_eq!(walk("/r/s", vec![("/r/s", selfish)]), Err(CascadeError::Cycle { path: "/r/s".into() }));
}

#[test]
fn errors_read_as_sentences() {
    assert_eq!(
        CascadeError::Load { path: "/r/x".into(), message: "gone".into() }.describe(),
        "cannot load /r/x: gone"
    );
    assert_eq!(CascadeError::Cycle { path: "/r/a".into() }.describe(), "mount cycle through /r/a");
    assert_eq!(
        CascadeError::MissingRequired { name: "host".into() }.describe(),
        "the host project is missing from the mounts cascade \u{2014} declare it in .ol/project.toml"
    );
}
