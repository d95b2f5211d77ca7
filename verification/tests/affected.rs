//! Engine tests: each fixture tree becomes a world value — the parsed
//! constructs of every file plus the resolution of every specifier — and one
//! run over it is compared against the expected affected set.

use std::collections::HashSet;

use affected::affected::collect_affected;
use affected::affected::ResolveOutcome;
use affected::affected::SourceWorld;
use affected::affected::WorldFile;
use affected::extract::ImportNode;
use affected::extract::RequireArg;
use affected::extract::SpecifierArg;

const CWD: &str = "/repo";

fn imp(specifier: &str) -> ImportNode {
    ImportNode::StaticImport { specifier: specifier.to_string() }
}

fn req(specifier: &str) -> ImportNode {
    ImportNode::Require { argument: RequireArg::Lit(specifier.to_string()), start: 0, end: 0 }
}

fn resolved(rel: &str) -> ResolveOutcome {
    ResolveOutcome::Resolved(format!("{CWD}/{rel}"))
}

fn entry(path: &str, nodes: Vec<ImportNode>, resolutions: Vec<(&str, ResolveOutcome)>) -> WorldFile {
    WorldFile {
        path: path.to_string(),
        readable: true,
        text: String::new(),
        nodes,
        parse_errors: Vec::new(),
        resolutions: resolutions.into_iter().map(|(s, o)| (s.to_string(), o)).collect(),
    }
}

fn run(world: &SourceWorld, test_files: Vec<&str>, changed_files: Vec<&str>) -> affected::AffectedReturn {
    collect_affected(
        world,
        test_files.iter().map(|s| s.to_string()).collect(),
        changed_files.iter().map(|s| s.to_string()).collect(),
        vec!["node_modules".to_string()],
        CWD.to_string(),
    )
}

fn assert_collect_affected(
    world: &SourceWorld,
    test_files: Vec<&str>,
    changed_files: Vec<&str>,
    expected: Vec<&str>,
) {
    let ret = run(world, test_files, changed_files);
    let expected: HashSet<String> = HashSet::from_iter(expected.iter().map(|s| s.to_string()));
    let actual: HashSet<String> = HashSet::from_iter(ret.files.iter().map(|s| s.to_string()));
    let no_errors: Vec<String> = vec![];
    assert_eq!(expected, actual);
    assert_eq!(ret.errors, no_errors);
}

fn assert_affected(world: &SourceWorld, test_files: Vec<&str>, changed_files: Vec<&str>) {
    assert_collect_affected(world, test_files.clone(), changed_files, test_files);
}

fn assert_unaffected(world: &SourceWorld, test_files: Vec<&str>, changed_files: Vec<&str>) {
    assert_collect_affected(world, test_files, changed_files, vec![]);
}

/// `fixtures/require`: one suite requiring one module.
fn require_world() -> SourceWorld {
    SourceWorld {
        files: vec![
            entry(
                "fixtures/require/suite.spec.js",
                vec![req("./module")],
                vec![("./module", resolved("fixtures/require/module.js"))],
            ),
            entry("fixtures/require/module.js", vec![], vec![]),
        ],
    }
}

/// `fixtures/simple`: one suite importing one module.
fn simple_world() -> SourceWorld {
    SourceWorld {
        files: vec![
            entry(
                "fixtures/simple/suite.spec.js",
                vec![imp("./module")],
                vec![("./module", resolved("fixtures/simple/module.js"))],
            ),
            entry("fixtures/simple/module.js", vec![], vec![]),
        ],
    }
}

/// `fixtures/nested`: two suites over a shared transitive module, a cycle,
/// and an asset-importing file.
fn nested_world() -> SourceWorld {
    SourceWorld {
        files: vec![
            entry(
                "fixtures/nested/module.spec.js",
                vec![imp("./module")],
                vec![("./module", resolved("fixtures/nested/module.js"))],
            ),
            entry(
                "fixtures/nested/sub-module.spec.js",
                vec![imp("./sub-module")],
                vec![("./sub-module", resolved("fixtures/nested/sub-module.js"))],
            ),
            entry(
                "fixtures/nested/module.js",
                vec![imp("./sub-module")],
                vec![("./sub-module", resolved("fixtures/nested/sub-module.js"))],
            ),
            entry(
                "fixtures/nested/sub-module.js",
                vec![imp("./another-module")],
                vec![("./another-module", resolved("fixtures/nested/another-module.js"))],
            ),
            entry("fixtures/nested/another-module.js", vec![], vec![]),
            entry(
                "fixtures/nested/circular.spec.js",
                vec![imp("./circular-1")],
                vec![("./circular-1", resolved("fixtures/nested/circular-1.js"))],
            ),
            entry(
                "fixtures/nested/circular-1.js",
                vec![imp("./circular-2")],
                vec![("./circular-2", resolved("fixtures/nested/circular-2.js"))],
            ),
            entry(
                "fixtures/nested/circular-2.js",
                vec![imp("./circular-3")],
                vec![("./circular-3", resolved("fixtures/nested/circular-3.js"))],
            ),
            entry(
                "fixtures/nested/circular-3.js",
                vec![imp("./circular-1")],
                vec![("./circular-1", resolved("fixtures/nested/circular-1.js"))],
            ),
            entry(
                "fixtures/nested/all.js",
                vec![imp("./module"), imp("./sub-module")],
                vec![
                    ("./module", resolved("fixtures/nested/module.js")),
                    ("./sub-module", resolved("fixtures/nested/sub-module.js")),
                ],
            ),
            entry(
                "fixtures/nested/assets.js",
                vec![imp("./styles.css")],
                vec![("./styles.css", resolved("fixtures/nested/styles.css"))],
            ),
        ],
    }
}

#[test]
fn test_require() {
    let w = require_world();
    assert_affected(&w, vec!["fixtures/require/suite.spec.js"], vec!["fixtures/require/module.js"]);
}

#[test]
fn test_simple() {
    let w = simple_world();
    assert_affected(&w, vec!["fixtures/simple/suite.spec.js"], vec!["fixtures/simple/module.js"]);
}

#[test]
fn test_nested() {
    let w = nested_world();
    let test_files = ["fixtures/nested/module.spec.js", "fixtures/nested/sub-module.spec.js"];
    let changed_files = ["fixtures/nested/module.js", "fixtures/nested/sub-module.js"];
    assert_affected(&w, test_files.to_vec(), changed_files.to_vec());
    assert_collect_affected(&w, test_files.to_vec(), vec![changed_files[0]], vec![test_files[0]]);
    assert_affected(&w, test_files.to_vec(), vec![changed_files[1]]);
    assert_collect_affected(
        &w,
        test_files.to_vec(),
        vec!["fixtures/nested/another-module.js"],
        test_files.to_vec(),
    );
}

#[test]
fn test_circular() {
    let w = nested_world();
    let test_files = ["fixtures/nested/circular.spec.js"];
    assert_affected(&w, test_files.to_vec(), vec!["fixtures/nested/circular-1.js"]);
    assert_affected(&w, test_files.to_vec(), vec!["fixtures/nested/circular-2.js"]);
    assert_affected(&w, test_files.to_vec(), vec!["fixtures/nested/circular-3.js"]);
    assert_unaffected(&w, test_files.to_vec(), vec!["fixtures/nested/another-module.js"]);
}

#[test]
fn test_all_nested() {
    let w = nested_world();
    let test_files = [
        "fixtures/nested/all.js",
        "fixtures/nested/circular.spec.js",
        "fixtures/nested/module.js",
        "fixtures/nested/assets.js",
    ];
    assert_unaffected(&w, test_files.to_vec(), vec!["fixtures/nested/file.jsson"]);
}

#[test]
fn test_non_source_imports() {
    let w = nested_world();
    assert_unaffected(
        &w,
        vec!["fixtures/nested/assets.js"],
        vec!["fixtures/nested/another-module.js"],
    );
}

/// `fixtures/typescript`: an aliased import that the resolver maps through
/// the project file.
fn typescript_world() -> SourceWorld {
    SourceWorld {
        files: vec![
            entry(
                "fixtures/typescript/suite.spec.ts",
                vec![imp("@alias/aliased")],
                vec![("@alias/aliased", resolved("fixtures/typescript/aliased.ts"))],
            ),
            entry(
                "fixtures/typescript/type-import.ts",
                vec![imp("@alias/aliased")],
                vec![("@alias/aliased", resolved("fixtures/typescript/aliased.ts"))],
            ),
            entry("fixtures/typescript/aliased.ts", vec![], vec![]),
        ],
    }
}

#[test]
fn test_ts_alias() {
    let w = typescript_world();
    assert_affected(
        &w,
        vec!["fixtures/typescript/suite.spec.ts"],
        vec!["fixtures/typescript/aliased.ts"],
    );
}

#[test]
fn test_type_import() {
    let w = typescript_world();
    assert_affected(
        &w,
        vec!["fixtures/typescript/type-import.ts"],
        vec!["fixtures/typescript/aliased.ts"],
    );
}

#[test]
fn affected_test_ts_alias() {
    let w = SourceWorld {
        files: vec![
            entry(
                "fixtures/ts-alias/suite.spec.ts",
                vec![imp("@alias/aliased")],
                vec![("@alias/aliased", resolved("fixtures/ts-alias/aliased.ts"))],
            ),
            entry("fixtures/ts-alias/aliased.ts", vec![], vec![]),
        ],
    };
    assert_affected(&w, vec!["fixtures/ts-alias/suite.spec.ts"], vec!["fixtures/ts-alias/aliased.ts"]);
}

#[test]
fn test_builtins() {
    let w = SourceWorld {
        files: vec![entry(
            "fixtures/built-in-module.mjs",
            vec![imp("node:path")],
            vec![("node:path", ResolveOutcome::BuiltinModule)],
        )],
    };
    assert_unaffected(
        &w,
        vec!["fixtures/built-in-module.mjs"],
        vec!["fixtures/nested/another-module.js"],
    );
}

#[test]
fn test_yarn_workspace() {
    let w = SourceWorld {
        files: vec![
            entry(
                "fixtures/yarn-workspace/app/index.js",
                vec![imp("workspace-pkg-a")],
                vec![(
                    "workspace-pkg-a",
                    resolved("fixtures/yarn-workspace/packages/workspace-pkg-a/index.js"),
                )],
            ),
            entry(
                "fixtures/yarn-workspace/packages/workspace-pkg-a/index.js",
                vec![imp("workspace-pkg-b")],
                vec![(
                    "workspace-pkg-b",
                    resolved("fixtures/yarn-workspace/packages/workspace-pkg-b/index.js"),
                )],
            ),
            entry("fixtures/yarn-workspace/packages/workspace-pkg-b/index.js", vec![], vec![]),
        ],
    };
    assert_affected(
        &w,
        vec!["fixtures/yarn-workspace/app/index.js"],
        vec!["fixtures/yarn-workspace/packages/workspace-pkg-b/index.js"],
    );
}

#[test]
fn test_bad_import() {
    let w = SourceWorld {
        files: vec![entry("fixtures/bad-import.js", vec![imp("bad-import")], vec![])],
    };
    let ret = run(&w, vec!["fixtures/bad-import.js"], vec![]);
    assert_eq!(ret.errors, vec!["Cannot find module 'bad-import'"]);
    assert!(ret.files.is_empty());
}

#[test]
fn test_bad_module() {
    let w = SourceWorld {
        files: vec![
            entry(
                "fixtures/modules/index.mjs",
                vec![imp("dep")],
                vec![("dep", resolved("fixtures/modules/node_modules/dep/index.js"))],
            ),
            entry(
                "fixtures/modules/node_modules/dep/index.js",
                vec![imp("deeper")],
                vec![("deeper", resolved("fixtures/modules/node_modules/deeper/index.js"))],
            ),
        ],
    };
    assert_unaffected(&w, vec!["fixtures/modules/index.mjs"], vec![]);
}

/// A change deep inside a vendored tree does not travel out of it, but a
/// change to the vendored entry point the first-party file resolves to does.
#[test]
fn test_vendored_stop() {
    let w = SourceWorld {
        files: vec![
            entry(
                "fixtures/vendored/suite.spec.js",
                vec![imp("./first-party")],
                vec![("./first-party", resolved("fixtures/vendored/first-party.js"))],
            ),
            entry(
                "fixtures/vendored/first-party.js",
                vec![imp("dep")],
                vec![("dep", resolved("fixtures/vendored/node_modules/dep/index.js"))],
            ),
            entry(
                "fixtures/vendored/node_modules/dep/index.js",
                vec![imp("./deep")],
                vec![("./deep", resolved("fixtures/vendored/node_modules/dep/deep.js"))],
            ),
        ],
    };
    // the deep vendored file is changed: the engine never descended to it
    assert_unaffected(
        &w,
        vec!["fixtures/vendored/suite.spec.js"],
        vec!["fixtures/vendored/node_modules/dep/deep.js"],
    );
    // the vendored entry point itself is changed: the edge to it is enough
    assert_affected(
        &w,
        vec!["fixtures/vendored/suite.spec.js"],
        vec!["fixtures/vendored/node_modules/dep/index.js"],
    );
}

/// An unreadable file is reported and contributes no edges.
#[test]
fn test_unreadable_file() {
    let mut broken = entry("fixtures/broken/suite.spec.js", vec![], vec![]);
    broken.readable = false;
    let w = SourceWorld { files: vec![broken] };
    let ret = run(&w, vec!["fixtures/broken/suite.spec.js"], vec![]);
    assert_eq!(ret.errors, vec!["Cannot read file: /repo/fixtures/broken/suite.spec.js"]);
    assert!(ret.files.is_empty());
}

/// A changed test root is reported without being parsed.
#[test]
fn test_changed_root_reported() {
    let w = SourceWorld { files: vec![] };
    let ret = run(&w, vec!["fixtures/any.spec.js"], vec!["fixtures/any.spec.js"]);
    assert_eq!(ret.files, vec!["fixtures/any.spec.js"]);
    assert!(ret.errors.is_empty());
}

/// Enlarging the changed set only enlarges the reported set.
#[test]
fn test_monotone_changed() {
    let w = nested_world();
    let tests = vec!["fixtures/nested/module.spec.js", "fixtures/nested/sub-module.spec.js"];
    let small = run(&w, tests.clone(), vec!["fixtures/nested/module.js"]);
    let large = run(
        &w,
        tests.clone(),
        vec!["fixtures/nested/module.js", "fixtures/nested/sub-module.js"],
    );
    for f in small.files.iter() {
        assert!(large.files.contains(f));
    }
}

/// Two runs on identical inputs report identical sets and identical errors.
#[test]
fn test_idempotent_runs() {
    let w = nested_world();
    let tests = vec!["fixtures/nested/module.spec.js", "fixtures/nested/circular.spec.js"];
    let changed = vec!["fixtures/nested/another-module.js"];
    let first = run(&w, tests.clone(), changed.clone());
    let second = run(&w, tests.clone(), changed.clone());
    let a: HashSet<String> = HashSet::from_iter(first.files.iter().cloned());
    let b: HashSet<String> = HashSet::from_iter(second.files.iter().cloned());
    assert_eq!(a, b);
    assert_eq!(first.errors, second.errors);
}

/// Only the literal arguments of dynamic imports contribute edges; the
/// non-literal one is reported.
#[test]
fn test_dynamic_specifier_mixed() {
    let w = SourceWorld {
        files: vec![
            entry(
                "fixtures/dynamic/suite.spec.js",
                vec![
                    ImportNode::DynamicImport {
                        argument: SpecifierArg::Lit("./real".to_string()),
                        start: 0,
                        end: 14,
                    },
                    ImportNode::DynamicImport {
                        argument: SpecifierArg::Other,
                        start: 16,
                        end: 30,
                    },
                ],
                vec![("./real", resolved("fixtures/dynamic/real.js"))],
            ),
            entry("fixtures/dynamic/real.js", vec![], vec![]),
        ],
    };
    let ret = run(&w, vec!["fixtures/dynamic/suite.spec.js"], vec!["fixtures/dynamic/real.js"]);
    assert_eq!(ret.files, vec!["fixtures/dynamic/suite.spec.js"]);
    assert_eq!(ret.errors.len(), 1);
    assert!(ret.errors[0].contains("Import call must not have dynamic template literals"));
}

/// Two statements naming the same specifier produce one edge and one parse
/// of the importee.
#[test]
fn test_duplicate_specifier_one_edge() {
    let w = SourceWorld {
        files: vec![
            entry(
                "fixtures/dup/suite.spec.js",
                vec![imp("./m"), req("./m")],
                vec![("./m", resolved("fixtures/dup/m.js"))],
            ),
            entry("fixtures/dup/m.js", vec![], vec![]),
        ],
    };
    assert_affected(&w, vec!["fixtures/dup/suite.spec.js"], vec!["fixtures/dup/m.js"]);
}

/// Parse diagnostics travel through the run, rendered with the file's label
/// relative to the working directory.
#[test]
fn test_parse_errors_reported() {
    let mut bad = entry("fixtures/syntax/suite.spec.js", vec![], vec![]);
    bad.text = "const ?!".to_string();
    bad.parse_errors = vec![affected::extract::ParseDiag {
        message: "Unexpected token".to_string(),
        start: 6,
        end: 7,
    }];
    let w = SourceWorld { files: vec![bad] };
    let ret = run(&w, vec!["fixtures/syntax/suite.spec.js"], vec![]);
    assert_eq!(ret.errors, vec!["fixtures/syntax/suite.spec.js: Unexpected token (6..7): ?"]);
    assert!(ret.files.is_empty());
}

/// The same test-file string given twice is reported once.
#[test]
fn test_duplicate_label_reported_once() {
    let w = simple_world();
    let ret = run(
        &w,
        vec!["fixtures/simple/suite.spec.js", "fixtures/simple/suite.spec.js"],
        vec!["fixtures/simple/module.js"],
    );
    assert_eq!(ret.files, vec!["fixtures/simple/suite.spec.js"]);
    assert!(ret.errors.is_empty());
}
