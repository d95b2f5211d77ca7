//! The import extractor: from the import-bearing constructs of one parsed
//! source file to its set of module specifiers, plus diagnostics.
//!
//! A file's parse is handed in as the flat sequence, in walk order, of the
//! constructs that can contribute a specifier: static imports, dynamic
//! `import(..)` expressions, re-exports with a source, and calls whose callee
//! is the identifier `require`. Which of them contribute, and which instead
//! raise a diagnostic, is decided here and fully specified.

use vstd::prelude::*;

use crate::paths::rel_label_spec;
use crate::paths::rel_label;

verus! {

/// The argument of a dynamic `import(..)` expression, as far as the
/// extractor cares: a string literal, a template literal reduced to its
/// interpolation count and its quasis, or anything else.
pub enum SpecifierArg {
    Lit(String),
    Template { expressions: usize, quasis: Vec<String> },
    Other,
}

/// The argument shape of a call to `require`: the standard single
/// string-literal form, or any other form (wrong arity, non-literal).
pub enum RequireArg {
    Lit(String),
    NotLiteral,
}

/// One import-bearing construct found while walking a source file.
/// `start` and `end` delimit the construct in the source buffer, for
/// diagnostics.
pub enum ImportNode {
    /// `import ... from S;` or `import S;`
    StaticImport { specifier: String },
    /// `import(X)`
    DynamicImport { argument: SpecifierArg, start: u32, end: u32 },
    /// `export { ... } from S;` (no specifier when the export has no source)
    ExportFrom { specifier: Option<String> },
    /// `export * from S;` or `export * as N from S;`
    ExportAll { specifier: String },
    /// a call whose callee is the identifier `require`
    Require { argument: RequireArg, start: u32, end: u32 },
}

/// A diagnostic reported by the parser, reduced to its message and span.
pub struct ParseDiag {
    pub message: String,
    pub start: u32,
    pub end: u32,
}

/// The specifier one construct contributes, if any: static imports,
/// re-exports with a source and string-literal arguments contribute; a
/// template literal contributes its first quasi only when it has no
/// interpolations; everything else contributes nothing.
pub open spec fn specifier_of_node(n: ImportNode) -> Option<Seq<char>> {
    match n {
        ImportNode::StaticImport { specifier } => Some(specifier@),
        ImportNode::DynamicImport { argument, .. } => match argument {
            SpecifierArg::Lit(s) => Some(s@),
            SpecifierArg::Template { expressions, quasis } => {
                if expressions == 0 && quasis.len() > 0 {
                    Some(quasis[0]@)
                } else {
                    None
                }
            },
            SpecifierArg::Other => None,
        },
        ImportNode::ExportFrom { specifier } => match specifier {
            Some(s) => Some(s@),
            None => None,
        },
        ImportNode::ExportAll { specifier } => Some(specifier@),
        ImportNode::Require { argument, .. } => match argument {
            RequireArg::Lit(s) => Some(s@),
            RequireArg::NotLiteral => None,
        },
    }
}

/// The diagnostic one construct raises, if any: a dynamic import whose
/// argument is neither a string literal nor an interpolation-free template,
/// or a `require` call without the single string-literal argument.
pub open spec fn diag_of_node(n: ImportNode) -> Option<(Seq<char>, u32, u32)> {
    match n {
        ImportNode::DynamicImport { argument, start, end } => match argument {
            SpecifierArg::Lit(_) => None,
            SpecifierArg::Template { expressions, .. } => {
                if expressions == 0 {
                    None
                } else {
                    Some(("Import call must not have dynamic template literals"@, start, end))
                }
            },
            SpecifierArg::Other => Some(
                ("Import call must not have dynamic template literals"@, start, end),
            ),
        },
        ImportNode::Require { argument, start, end } => match argument {
            RequireArg::Lit(_) => None,
            RequireArg::NotLiteral => Some(
                ("Require call must have a string literal argument"@, start, end),
            ),
        },
        _ => None,
    }
}

/// The set of specifiers contributed by a sequence of constructs.
pub open spec fn specifier_set(nodes: Seq<ImportNode>) -> Set<Seq<char>> {
    Set::new(
        |s: Seq<char>|
            exists|i: int| 0 <= i < nodes.len() && specifier_of_node(#[trigger] nodes[i]) == Some(
                s,
            ),
    )
}

/// The digit character for `d`.
pub open spec fn digit_char(d: nat) -> char {
    if d == 0 {
        '0'
    } else if d == 1 {
        '1'
    } else if d == 2 {
        '2'
    } else if d == 3 {
        '3'
    } else if d == 4 {
        '4'
    } else if d == 5 {
        '5'
    } else if d == 6 {
        '6'
    } else if d == 7 {
        '7'
    } else if d == 8 {
        '8'
    } else {
        '9'
    }
}

/// The decimal rendering of `n`.
pub open spec fn dec_spec(n: nat) -> Seq<char>
    decreases n,
{
    if n < 10 {
        seq![digit_char(n)]
    } else {
        dec_spec(n / 10) + seq![digit_char(n % 10)]
    }
}

fn digit_str(d: u32) -> (r: &'static str)
    requires
        d < 10,
    ensures
        r@ == seq![digit_char(d as nat)],
{
    proof {
        reveal_strlit("0");
        reveal_strlit("1");
        reveal_strlit("2");
        reveal_strlit("3");
        reveal_strlit("4");
        reveal_strlit("5");
        reveal_strlit("6");
        reveal_strlit("7");
        reveal_strlit("8");
        reveal_strlit("9");
    }
    let r = if d == 0 {
        "0"
    } else if d == 1 {
        "1"
    } else if d == 2 {
        "2"
    } else if d == 3 {
        "3"
    } else if d == 4 {
        "4"
    } else if d == 5 {
        "5"
    } else if d == 6 {
        "6"
    } else if d == 7 {
        "7"
    } else if d == 8 {
        "8"
    } else {
        "9"
    };
    proof {
        assert(r@ =~= seq![digit_char(d as nat)]);
    }
    r
}

/// Render `n` in decimal.
pub fn dec_u32(n: u32) -> (r: String)
    ensures
        r@ == dec_spec(n as nat),
    decreases n,
{
    let d = digit_str(n % 10);
    if n < 10 {
        d.to_owned()
    } else {
        let mut r = dec_u32(n / 10);
        r.append(d);
        r
    }
}

/// The slice of the source buffer that a diagnostic's span delimits, clipped
/// to the buffer.
pub open spec fn excerpt_spec(text: Seq<char>, start: u32, end: u32) -> Seq<char> {
    let a: int = if start as int <= text.len() {
        start as int
    } else {
        text.len() as int
    };
    let b: int = if end as int <= text.len() {
        end as int
    } else {
        text.len() as int
    };
    if a <= b {
        text.subrange(a, b)
    } else {
        Seq::empty()
    }
}

fn excerpt_str(text: &str, start: u32, end: u32) -> (r: String)
    ensures
        r@ == excerpt_spec(text@, start, end),
{
    let len = text.unicode_len();
    let a: usize = if start as usize <= len {
        start as usize
    } else {
        len
    };
    let b: usize = if end as usize <= len {
        end as usize
    } else {
        len
    };
    if a <= b {
        text.substring_char(a, b).to_owned()
    } else {
        let r = "".to_owned();
        proof {
            reveal_strlit("");
            assert(r@ =~= Seq::<char>::empty());
        }
        r
    }
}

/// One rendered diagnostic line: the file label, the message, the span, and
/// the slice of the owning source buffer that the span delimits.
pub open spec fn render_spec(
    label: Seq<char>,
    message: Seq<char>,
    start: u32,
    end: u32,
    text: Seq<char>,
) -> Seq<char> {
    label + ": "@ + message + " ("@ + dec_spec(start as nat) + ".."@ + dec_spec(end as nat)
        + "): "@ + excerpt_spec(text, start, end)
}

fn render_diag(label: &str, message: &str, start: u32, end: u32, text: &str) -> (r: String)
    ensures
        r@ == render_spec(label@, message@, start, end, text@),
{
    let mut r = label.to_owned();
    r.append(": ");
    r.append(message);
    r.append(" (");
    let s = dec_u32(start);
    r.append(s.as_str());
    r.append("..");
    let e = dec_u32(end);
    r.append(e.as_str());
    r.append("): ");
    let x = excerpt_str(text, start, end);
    r.append(x.as_str());
    proof {
        assert(r@ =~= render_spec(label@, message@, start, end, text@));
    }
    r
}

/// The file label used in diagnostics: the path relative to the working
/// directory when one was given, and a placeholder otherwise.
pub open spec fn label_spec(cwd: Seq<char>, source_filename: Option<&str>) -> Seq<char> {
    match source_filename {
        Some(f) => rel_label_spec(cwd, f@),
        None => "unknown file"@,
    }
}

/// The rendered diagnostics of the parser, in order.
pub open spec fn rendered_parse_errors(ds: Seq<ParseDiag>, label: Seq<char>, text: Seq<char>) -> Seq<
    Seq<char>,
> {
    ds.map_values(|d: ParseDiag| render_spec(label, d.message@, d.start, d.end, text))
}

/// The rendered diagnostics the extractor itself raises, in walk order.
pub open spec fn rendered_node_errors(
    nodes: Seq<ImportNode>,
    label: Seq<char>,
    text: Seq<char>,
) -> Seq<Seq<char>>
    decreases nodes.len(),
{
    if nodes.len() == 0 {
        Seq::empty()
    } else {
        rendered_node_errors(nodes.drop_last(), label, text) + (match diag_of_node(nodes.last()) {
            Some((m, a, b)) => seq![render_spec(label, m, a, b, text)],
            None => Seq::empty(),
        })
    }
}

/// What one extraction returns: the diagnostics (parse errors first, then
/// the extractor's own), and the deduplicated specifiers.
pub struct ImportsReturn {
    pub errors: Vec<String>,
    pub imports_paths: Vec<String>,
}

fn extract_specifier(n: &ImportNode) -> (r: Option<String>)
    ensures
        match r {
            Some(s) => specifier_of_node(*n) == Some(s@),
            None => specifier_of_node(*n) == Option::<Seq<char>>::None,
        },
{
    match n {
        ImportNode::StaticImport { specifier } => Some(specifier.clone()),
        ImportNode::DynamicImport { argument, .. } => match argument {
            SpecifierArg::Lit(s) => Some(s.clone()),
            SpecifierArg::Template { expressions, quasis } => {
                if *expressions == 0 && quasis.len() > 0 {
                    Some(quasis[0].clone())
                } else {
                    None
                }
            },
            SpecifierArg::Other => None,
        },
        ImportNode::ExportFrom { specifier } => match specifier {
            Some(s) => Some(s.clone()),
            None => None,
        },
        ImportNode::ExportAll { specifier } => Some(specifier.clone()),
        ImportNode::Require { argument, .. } => match argument {
            RequireArg::Lit(s) => Some(s.clone()),
            RequireArg::NotLiteral => None,
        },
    }
}

fn extract_diag(n: &ImportNode) -> (r: Option<(String, u32, u32)>)
    ensures
        match r {
            Some(t) => diag_of_node(*n) == Some((t.0@, t.1, t.2)),
            None => diag_of_node(*n) == Option::<(Seq<char>, u32, u32)>::None,
        },
{
    match n {
        ImportNode::DynamicImport { argument, start, end } => match argument {
            SpecifierArg::Lit(_) => None,
            SpecifierArg::Template { expressions, .. } => {
                if *expressions == 0 {
                    None
                } else {
                    Some(
                        (
                            "Import call must not have dynamic template literals".to_owned(),
                            *start,
                            *end,
                        ),
                    )
                }
            },
            SpecifierArg::Other => Some(
                (
                    "Import call must not have dynamic template literals".to_owned(),
                    *start,
                    *end,
                ),
            ),
        },
        ImportNode::Require { argument, start, end } => match argument {
            RequireArg::Lit(_) => None,
            RequireArg::NotLiteral => Some(
                ("Require call must have a string literal argument".to_owned(), *start, *end),
            ),
        },
        _ => None,
    }
}

/// Extract the specifiers of one parsed source file.
///
/// The specifier list is deduplicated: a specifier named by several
/// constructs of the same file appears once. The diagnostics are the
/// parser's, then the extractor's own, each rendered with the file label.
pub fn collect_imports(
    nodes: &Vec<ImportNode>,
    parse_errors: &Vec<ParseDiag>,
    cwd: &str,
    source_filename: Option<&str>,
    source_text: &str,
) -> (r: ImportsReturn)
    ensures
        r.imports_paths@.map_values(|s: String| s@).no_duplicates(),
        r.imports_paths@.map_values(|s: String| s@).to_set() == specifier_set(nodes@),
        r.errors@.map_values(|s: String| s@) == rendered_parse_errors(
            parse_errors@,
            label_spec(cwd@, source_filename),
            source_text@,
        ) + rendered_node_errors(nodes@, label_spec(cwd@, source_filename), source_text@),
{
    let label: String = match source_filename {
        None => "unknown file".to_owned(),
        Some(f) => rel_label(cwd, f),
    };
    let ghost label_v = label_spec(cwd@, source_filename);
    let ghost text_v = source_text@;
    assert(label@ == label_v);

    let mut errors: Vec<String> = Vec::new();
    let mut i: usize = 0;
    while i < parse_errors.len()
        invariant
            i <= parse_errors@.len(),
            label@ == label_v,
            text_v == source_text@,
            errors@.len() == i,
            errors@.map_values(|s: String| s@) == rendered_parse_errors(
                parse_errors@.take(i as int),
                label_v,
                text_v,
            ),
        decreases parse_errors@.len() - i,
    {
        let d = &parse_errors[i];
        let line = render_diag(label.as_str(), d.message.as_str(), d.start, d.end, source_text);
        let ghost old_errs = errors@;
        errors.push(line);
        proof {
            assert(errors@ == old_errs.push(line));
            assert(old_errs.len() == i);
            let lhs = errors@.map_values(|s: String| s@);
            let rhs = rendered_parse_errors(parse_errors@.take(i as int + 1), label_v, text_v);
            assert forall|t: int| 0 <= t < i + 1 implies lhs[t] == rhs[t] by {
                assert(rhs[t] == render_spec(
                    label_v,
                    parse_errors@.take(i as int + 1)[t].message@,
                    parse_errors@.take(i as int + 1)[t].start,
                    parse_errors@.take(i as int + 1)[t].end,
                    text_v,
                ));
                assert(parse_errors@.take(i as int + 1)[t] == parse_errors@[t]);
                if t < i {
                    let old_lhs = old_errs.map_values(|s: String| s@);
                    assert(old_lhs[t] == rendered_parse_errors(
                        parse_errors@.take(i as int),
                        label_v,
                        text_v,
                    )[t]);
                    assert(parse_errors@.take(i as int)[t] == parse_errors@[t]);
                    assert(lhs[t] == old_lhs[t]);
                } else {
                    assert(errors@[t] == line);
                    assert(lhs[t] == line@);
                    assert(parse_errors@[t] == *d);
                    assert(line@ == render_spec(
                        label_v,
                        parse_errors@[t].message@,
                        parse_errors@[t].start,
                        parse_errors@[t].end,
                        text_v,
                    ));
                }
            }
            assert(lhs =~= rhs);
        }
        i = i + 1;
    }
    proof {
        assert(parse_errors@.take(parse_errors@.len() as int) =~= parse_errors@);
    }
    let ghost parse_rendered = rendered_parse_errors(parse_errors@, label_v, text_v);

    let mut j: usize = 0;
    while j < nodes.len()
        invariant
            j <= nodes@.len(),
            label@ == label_v,
            text_v == source_text@,
            errors@.map_values(|s: String| s@) == parse_rendered + rendered_node_errors(
                nodes@.take(j as int),
                label_v,
                text_v,
            ),
        decreases nodes@.len() - j,
    {
        let ghost pre = nodes@.take(j as int);
        let ghost old_errs = errors@;
        if let Some((m, a, b)) = extract_diag(&nodes[j]) {
            let line = render_diag(label.as_str(), m.as_str(), a, b, source_text);
            proof {
                assert(diag_of_node(nodes@[j as int]) == Some((m@, a, b)));
                assert(line@ == render_spec(label_v, m@, a, b, text_v));
            }
            errors.push(line);
            proof {
                assert(errors@.map_values(|s: String| s@) =~= old_errs.map_values(
                    |s: String| s@,
                ).push(line@));
            }
        }
        proof {
            let post = nodes@.take(j as int + 1);
            assert(post.drop_last() =~= pre);
            assert(post.last() == nodes@[j as int]);
            assert(rendered_node_errors(post, label_v, text_v) == rendered_node_errors(
                pre,
                label_v,
                text_v,
            ) + (match diag_of_node(nodes@[j as int]) {
                Some((m, a, b)) => seq![render_spec(label_v, m, a, b, text_v)],
                None => Seq::<Seq<char>>::empty(),
            }));
            assert(errors@.map_values(|s: String| s@) =~= parse_rendered + rendered_node_errors(
                post,
                label_v,
                text_v,
            ));
        }
        j = j + 1;
    }
    proof {
        assert(nodes@.take(nodes@.len() as int) =~= nodes@);
    }

    let mut imports_paths: Vec<String> = Vec::new();
    let mut k: usize = 0;
    while k < nodes.len()
        invariant
            k <= nodes@.len(),
            imports_paths@.map_values(|s: String| s@).no_duplicates(),
            forall|y: int|
                #![trigger imports_paths@[y]]
                0 <= y < imports_paths@.len() ==> exists|x: int|
                    0 <= x < k && specifier_of_node(#[trigger] nodes@[x]) == Some(
                        imports_paths@[y]@,
                    ),
            forall|x: int|
                0 <= x < k ==> match specifier_of_node(#[trigger] nodes@[x]) {
                    Some(s) => exists|y: int|
                        0 <= y < imports_paths@.len() && (#[trigger] imports_paths@[y])@ == s,
                    None => true,
                },
        decreases nodes@.len() - k,
    {
        let ghost old_paths = imports_paths@;
        let ghost old_v = imports_paths@.map_values(|t: String| t@);
        if let Some(s) = extract_specifier(&nodes[k]) {
            let mut seen = false;
            let mut m: usize = 0;
            while m < imports_paths.len()
                invariant
                    m <= imports_paths@.len(),
                    old_v == imports_paths@.map_values(|t: String| t@),
                    old_paths == imports_paths@,
                    seen == (exists|y: int| 0 <= y < m && old_v[y] == s@),
                decreases imports_paths@.len() - m,
            {
                if imports_paths[m] == s {
                    proof {
                        assert(old_v[m as int] == imports_paths@[m as int]@);
                    }
                    seen = true;
                }
                m = m + 1;
            }
            if !seen {
                imports_paths.push(s);
                proof {
                    assert(imports_paths@.map_values(|t: String| t@) =~= old_v.push(s@));
                    let new_v = imports_paths@.map_values(|t: String| t@);
                    // the pushed specifier is new, so no duplicate arises
                    assert(forall|y: int| 0 <= y < old_v.len() ==> old_v[y] != s@);
                    assert(new_v.no_duplicates());
                    // every entry still traces back to a construct
                    assert forall|y: int| #![trigger imports_paths@[y]] 0 <= y
                        < imports_paths@.len() implies exists|x: int|
                        0 <= x < k + 1 && specifier_of_node(#[trigger] nodes@[x]) == Some(
                            imports_paths@[y]@,
                        ) by {
                        if y < old_paths.len() {
                            assert(imports_paths@[y] == old_paths[y]);
                            assert(old_v[y] == old_paths[y]@);
                        } else {
                            assert(imports_paths@[y]@ == s@);
                            assert(specifier_of_node(nodes@[k as int]) == Some(s@));
                        }
                    }
                    // every construct seen so far is still represented
                    assert forall|x: int| 0 <= x < k + 1 implies match specifier_of_node(
                        #[trigger] nodes@[x],
                    ) {
                        Some(t) => exists|y: int|
                            0 <= y < imports_paths@.len() && (#[trigger] imports_paths@[y])@ == t,
                        None => true,
                    } by {
                        if x < k {
                            if let Some(t) = specifier_of_node(nodes@[x]) {
                                let y0 = choose|y: int|
                                    0 <= y < old_paths.len() && (#[trigger] old_paths[y])@ == t;
                                assert(imports_paths@[y0] == old_paths[y0]);
                            }
                        } else {
                            assert(imports_paths@[old_paths.len() as int]@ == s@);
                        }
                    }
                }
            } else {
                proof {
                    let y0 = choose|y: int| 0 <= y < old_v.len() && old_v[y] == s@;
                    assert(imports_paths@[y0]@ == s@);
                    assert forall|x: int| 0 <= x < k + 1 implies match specifier_of_node(
                        #[trigger] nodes@[x],
                    ) {
                        Some(t) => exists|y: int|
                            0 <= y < imports_paths@.len() && (#[trigger] imports_paths@[y])@ == t,
                        None => true,
                    } by {
                        if x == k {
                            assert(imports_paths@[y0]@ == s@);
                        }
                    }
                }
            }
        }
        k = k + 1;
    }
    proof {
        let out_v = imports_paths@.map_values(|s: String| s@);
        assert forall|s: Seq<char>| out_v.to_set().contains(s) implies specifier_set(
            nodes@,
        ).contains(s) by {
            let y = choose|y: int| 0 <= y < out_v.len() && out_v[y] == s;
            assert(out_v[y] == imports_paths@[y]@);
        }
        assert forall|s: Seq<char>| specifier_set(nodes@).contains(s) implies out_v.to_set()
            .contains(s) by {
            let x = choose|x: int|
                0 <= x < nodes@.len() && specifier_of_node(#[trigger] nodes@[x]) == Some(s);
            let y = choose|y: int|
                0 <= y < imports_paths@.len() && (#[trigger] imports_paths@[y])@ == s;
            assert(out_v[y] == s);
            assert(out_v.contains(s));
        }
        assert(imports_paths@.map_values(|s: String| s@).to_set() =~= specifier_set(nodes@));
    }

    ImportsReturn { errors, imports_paths }
}

} // verus!
