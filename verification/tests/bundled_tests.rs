use moltis_skills::bundled::{provision_bundled_skills, BundledDir, BundledFile, ExtractOp};
use moltis_skills::catalog::bundled_skills;

fn names_of(bundle: &[BundledDir]) -> Vec<&str> {
    bundle.iter().map(|d| d.name.as_str()).collect()
}

#[test]
fn bundled_skills_are_embedded() {
    // Verify that the library carries our bundled skills.
    let bundle = bundled_skills();
    let names = names_of(&bundle);
    assert!(names.contains(&"commit"), "expected 'commit' in bundled skills, got: {names:?}");
    assert!(names.contains(&"explain"), "expected 'explain' in bundled skills, got: {names:?}");
    assert!(names.len() >= 8, "expected at least 8 bundled skills");
}

fn write_target(op: &ExtractOp) -> Option<(String, &str)> {
    match op {
        ExtractOp::WriteFile(path, contents) => Some((path.join("/"), contents.as_str())),
        ExtractOp::CreateDir(_) => None,
    }
}

#[test]
fn provision_creates_skills_dirs() {
    let bundle = bundled_skills();
    let plan = provision_bundled_skills(&bundle, &Vec::new());
    assert!(plan.provisioned >= 8, "expected at least 8 provisioned, got {}", plan.provisioned);

    // Each skill should have a SKILL.md
    let commit_md = plan
        .ops
        .iter()
        .filter_map(write_target)
        .find(|(path, _)| path == "commit/SKILL.md");
    assert!(commit_md.is_some(), "commit/SKILL.md should exist");
    assert!(commit_md.unwrap().1.contains("name: commit"));
}

#[test]
fn provision_is_idempotent() {
    let bundle = bundled_skills();
    let first = provision_bundled_skills(&bundle, &Vec::new());
    assert!(first.provisioned >= 8);

    // Second run should provision zero (all exist).
    let created: Vec<String> = first
        .ops
        .iter()
        .filter_map(|op| match op {
            ExtractOp::CreateDir(path) if path.len() == 1 => Some(path[0].clone()),
            _ => None,
        })
        .collect();
    let second = provision_bundled_skills(&bundle, &created);
    assert_eq!(second.provisioned, 0, "second provision should skip existing skills");
    assert!(second.ops.is_empty());
}

#[test]
fn provision_does_not_overwrite_existing() {
    let bundle = bundled_skills();
    let plan = provision_bundled_skills(&bundle, &vec!["commit".to_string()]);
    assert_eq!(plan.provisioned, bundle.len() - 1);
    // The user's custom content should be preserved.
    assert!(plan.ops.iter().all(|op| match op {
        ExtractOp::CreateDir(path) | ExtractOp::WriteFile(path, _) => path[0] != "commit",
    }));
}

#[test]
fn provision_plan_extracts_in_bundle_order() {
    let bundle = bundled_skills();
    let plan = provision_bundled_skills(&bundle, &vec!["debug".to_string()]);
    let mut expected = Vec::new();
    for name in names_of(&bundle) {
        if name != "debug" {
            expected.push(format!("mkdir {name}"));
            expected.push(format!("write {name}/SKILL.md"));
        }
    }
    let got: Vec<String> = plan
        .ops
        .iter()
        .map(|op| match op {
            ExtractOp::CreateDir(p) => format!("mkdir {}", p.join("/")),
            ExtractOp::WriteFile(p, _) => format!("write {}", p.join("/")),
        })
        .collect();
    assert_eq!(got, expected);
}

#[test]
fn nested_directories_are_extracted_recursively() {
    let tree = BundledDir {
        name: "tool".to_string(),
        files: vec![BundledFile { name: "SKILL.md".to_string(), contents: "top".to_string() }],
        dirs: vec![BundledDir {
            name: "scripts".to_string(),
            files: vec![
                BundledFile { name: "run.sh".to_string(), contents: "echo".to_string() },
                BundledFile { name: "lib.sh".to_string(), contents: "fn".to_string() },
            ],
            dirs: vec![BundledDir { name: "empty".to_string(), files: vec![], dirs: vec![] }],
        }],
    };
    let plan = provision_bundled_skills(&vec![tree], &Vec::new());
    assert_eq!(plan.provisioned, 1);
    let got: Vec<String> = plan
        .ops
        .iter()
        .map(|op| match op {
            ExtractOp::CreateDir(p) => format!("mkdir {}", p.join("/")),
            ExtractOp::WriteFile(p, c) => format!("write {} {}", p.join("/"), c),
        })
        .collect();
    assert_eq!(
        got,
        vec![
            "mkdir tool",
            "write tool/SKILL.md top",
            "mkdir tool/scripts",
            "write tool/scripts/run.sh echo",
            "write tool/scripts/lib.sh fn",
            "mkdir tool/scripts/empty",
        ]
    );
}

#[test]
fn duplicate_bundle_names_are_provisioned_once() {
    let one = || BundledDir { name: "same".to_string(), files: vec![], dirs: vec![] };
    let plan = provision_bundled_skills(&vec![one(), one()], &Vec::new());
    assert_eq!(plan.provisioned, 1);
    assert_eq!(plan.ops.len(), 1);
}

#[test]
fn every_bundled_skill_has_front_matter_with_its_name() {
    for skill in bundled_skills() {
        assert_eq!(skill.files.len(), 1);
        assert_eq!(skill.files[0].name, "SKILL.md");
        assert!(skill.files[0].contents.starts_with(&format!("---\nname: {}\n", skill.name)));
        assert!(skill.dirs.is_empty());
    }
}
