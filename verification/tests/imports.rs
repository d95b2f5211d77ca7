//! Extractor tests: each source text is parsed with the real parser, the
//! walker hands the import-bearing constructs to the library, and the
//! resulting specifier sets and diagnostics are compared.

use std::collections::HashSet;

use affected::extract::collect_imports;
use affected::extract::ImportNode;
use affected::extract::ParseDiag;
use affected::extract::RequireArg;
use affected::extract::SpecifierArg;
use oxc_allocator::Allocator;
use oxc_ast_visit::walk;
use oxc_ast_visit::Visit;
use oxc_parser::Parser;
use oxc_span::SourceType;

struct CollectNodes {
    nodes: Vec<ImportNode>,
}

impl<'a> Visit<'a> for CollectNodes {
    fn visit_import_declaration(&mut self, it: &oxc_ast::ast::ImportDeclaration<'a>) {
        self.nodes.push(ImportNode::StaticImport { specifier: it.source.value.to_string() });
        walk::walk_import_declaration(self, it);
    }

    fn visit_import_expression(&mut self, it: &oxc_ast::ast::ImportExpression<'a>) {
        let argument = match &it.source {
            oxc_ast::ast::Expression::StringLiteral(lit) => {
                SpecifierArg::Lit(lit.value.to_string())
            }
            oxc_ast::ast::Expression::TemplateLiteral(lit) => SpecifierArg::Template {
                expressions: lit.expressions.len(),
                quasis: lit.quasis.iter().map(|q| q.value.raw.to_string()).collect(),
            },
            _ => SpecifierArg::Other,
        };
        self.nodes.push(ImportNode::DynamicImport {
            argument,
            start: it.span.start,
            end: it.span.end,
        });
        walk::walk_import_expression(self, it);
    }

    fn visit_export_named_declaration(&mut self, it: &oxc_ast::ast::ExportNamedDeclaration<'a>) {
        self.nodes.push(ImportNode::ExportFrom {
            specifier: it.source.as_ref().map(|s| s.value.to_string()),
        });
        walk::walk_export_named_declaration(self, it);
    }

    fn visit_export_all_declaration(&mut self, it: &oxc_ast::ast::ExportAllDeclaration<'a>) {
        self.nodes.push(ImportNode::ExportAll { specifier: it.source.value.to_string() });
        walk::walk_export_all_declaration(self, it);
    }

    fn visit_call_expression(&mut self, it: &oxc_ast::ast::CallExpression<'a>) {
        if it.is_require_call() {
            let argument = match it.common_js_require() {
                Some(lit) => RequireArg::Lit(lit.value.to_string()),
                None => RequireArg::NotLiteral,
            };
            self.nodes.push(ImportNode::Require {
                argument,
                start: it.span.start,
                end: it.span.end,
            });
        } else if it.callee_name().is_some_and(|n| n == "require") {
            self.nodes.push(ImportNode::Require {
                argument: RequireArg::NotLiteral,
                start: it.span.start,
                end: it.span.end,
            });
        }
        walk::walk_call_expression(self, it);
    }
}

fn parse_nodes(source_text: &str) -> (Vec<ImportNode>, Vec<ParseDiag>) {
    let allocator = Allocator::default();
    let parsed = Parser::new(&allocator, source_text, SourceType::mjs()).parse();
    let mut pass = CollectNodes { nodes: Vec::new() };
    pass.visit_program(&parsed.program);
    let parse_errors = parsed
        .diagnostics
        .into_vec()
        .into_iter()
        .map(|d| ParseDiag { message: d.message.to_string(), start: 0, end: 0 })
        .collect();
    (pass.nodes, parse_errors)
}

fn run_collect(source_text: &str) -> affected::extract::ImportsReturn {
    let (nodes, parse_errors) = parse_nodes(source_text);
    collect_imports(&nodes, &parse_errors, "/repo", None, source_text)
}

fn assert_imports(source_text: &str, expected_imports: Vec<&str>) {
    let ret = run_collect(source_text);
    let expected: HashSet<String> =
        HashSet::from_iter(expected_imports.into_iter().map(|s| s.to_string()));
    let actual: HashSet<String> = HashSet::from_iter(ret.imports_paths.into_iter());
    assert_eq!(expected, actual);
    assert!(ret.errors.is_empty());
}

fn asset_error(source_text: &str) {
    let ret = run_collect(source_text);
    assert!(!ret.errors.is_empty());
    assert!(ret.imports_paths.is_empty());
}

#[test]
fn test_import_default() {
    assert_imports("import snel from 'hest';", vec!["hest"]);
}

#[test]
fn test_import_side_effect() {
    assert_imports("import 'hest';", vec!["hest"]);
}

#[test]
fn test_import_named() {
    assert_imports("import { snel } from 'hest';", vec!["hest"]);
}

#[test]
fn test_import_destruction() {
    assert_imports("import { snel } from 'hest';", vec!["hest"]);
}

#[test]
fn test_import_namespace() {
    assert_imports("import * as snel from 'hest';", vec!["hest"]);
}

#[test]
fn imports_test_import_namespace() {
    assert_imports("import * as snel from 'hest';", vec!["hest"]);
}

#[test]
fn test_import_duplicates() {
    assert_imports("import 'snel'; import 'hest'; import 'hest';", vec!["snel", "hest"]);
}

#[test]
fn imports_test_import_duplicates() {
    assert_imports("import 'snel'; import 'hest'; import 'hest';", vec!["snel", "hest"]);
}

#[test]
fn test_import_dynamic() {
    assert_imports("import 'snel'; import('hest');", vec!["snel", "hest"]);
}

#[test]
fn test_import_dynamic_template_literal() {
    assert_imports("import(`hest`);", vec!["hest"]);
}

#[test]
fn test_require_literal() {
    assert_imports("require('hest');", vec!["hest"]);
}

#[test]
fn imports_test_require_literal() {
    assert_imports("require('hest');", vec!["hest"]);
}

#[test]
fn test_export_named() {
    assert_imports("export { snel } from 'hest';", vec!["hest"]);
}

#[test]
fn test_export_namespace() {
    assert_imports("export * as snel from 'hest';", vec!["hest"]);
}

#[test]
fn test_invalid_syntax() {
    asset_error("import snel from 'hest'; const;");
}

#[test]
fn test_empty_require() {
    let ret = run_collect("require('snel'); require();");
    assert!(!ret.errors.is_empty());
    assert_eq!(ret.imports_paths, vec!["snel"]);
}

#[test]
fn test_variable_require() {
    let ret = run_collect("require('snel'); const path = 'hest'; require(path);");
    assert!(!ret.errors.is_empty());
    assert_eq!(ret.imports_paths, vec!["snel"]);
}

#[test]
fn test_variable_import() {
    let ret = run_collect("import 'snel'; const path = 'hest'; import(path);");
    assert!(!ret.errors.is_empty());
    assert_eq!(ret.imports_paths, vec!["snel"]);
}

#[test]
fn test_variable_template_literal_import() {
    let ret = run_collect("import 'snel'; const path = 'hest'; import(`${path}`);");
    assert!(!ret.errors.is_empty());
    assert_eq!(ret.imports_paths, vec!["snel"]);
}

#[test]
fn test_variable_template_literal_require() {
    let ret = run_collect("const path = 'hest'; require(`${path}`);");
    assert!(!ret.errors.is_empty());
}

#[test]
fn test_dynamic_import() {
    let ret = run_collect("import 'snel'; import('he' + 'st');");
    assert!(!ret.errors.is_empty());
    assert_eq!(ret.imports_paths, vec!["snel"]);
}

#[test]
fn test_diagnostic_rendering() {
    // One malformed require in a file with a known label: the diagnostic
    // line carries the label, the message, and the span of the call.
    let nodes = vec![ImportNode::Require {
        argument: RequireArg::NotLiteral,
        start: 3,
        end: 12,
    }];
    let ret = collect_imports(&nodes, &Vec::new(), "/repo", Some("/repo/src/a.js"), "x: require(y)");
    assert_eq!(
        ret.errors,
        vec![
            "src/a.js: Require call must have a string literal argument (3..12): require(y"
                .to_string()
        ]
    );
    assert!(ret.imports_paths.is_empty());
}

#[test]
fn test_unknown_file_label() {
    let nodes = vec![ImportNode::DynamicImport {
        argument: SpecifierArg::Other,
        start: 0,
        end: 9,
    }];
    let ret = collect_imports(&nodes, &Vec::new(), "/repo", None, "import(z)");
    assert_eq!(
        ret.errors,
        vec!["unknown file: Import call must not have dynamic template literals (0..9): import(z)"
            .to_string()]
    );
}
