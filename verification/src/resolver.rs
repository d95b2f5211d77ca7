//! The trusted boundary to the outside world: the module resolver of
//! `oxc_resolver` and the source-kind classifier of `oxc_span`. Everything
//! else in this crate is verified against the contracts stated here.

use vstd::prelude::*;

use crate::affected::ResolveOutcome;

verus! {

#[verifier::external_type_specification]
#[verifier::external_body]
#[verifier::reject_recursive_types(Fs)]
pub struct ExResolverGeneric<Fs>(oxc_resolver::ResolverGeneric<Fs>);

#[verifier::external_type_specification]
#[verifier::external_body]
pub struct ExFileSystemOs(oxc_resolver::FileSystemOs);

/// The characters of `p` after its last separator.
pub open spec fn tail_component(p: Seq<char>) -> Seq<char>
    decreases p.len(),
{
    if p.len() == 0 || p.last() == '/' {
        Seq::empty()
    } else {
        tail_component(p.drop_last()).push(p.last())
    }
}

/// The characters of `f` after its last dot, when `f` has a dot at all.
pub open spec fn dot_split(f: Seq<char>) -> Option<Seq<char>>
    decreases f.len(),
{
    if f.len() == 0 {
        Option::None
    } else if f.last() == '.' {
        Option::Some(Seq::empty())
    } else {
        match dot_split(f.drop_last()) {
            Option::Some(e) => Option::Some(e.push(f.last())),
            Option::None => Option::None,
        }
    }
}

/// The file name of the path `p`: its final component, with trailing
/// separators and trailing `.` components stripped; nothing when the path is
/// empty, is all separators, or ends in a `..` component.
pub open spec fn file_name_spec(p: Seq<char>) -> Option<Seq<char>>
    decreases p.len(),
{
    if p.len() == 0 {
        Option::None
    } else if p.last() == '/' {
        file_name_spec(p.drop_last())
    } else {
        let comp = tail_component(p);
        if comp == seq!['.'] {
            file_name_spec(p.drop_last())
        } else if comp == seq!['.', '.'] {
            Option::None
        } else {
            Option::Some(comp)
        }
    }
}

/// The extension of the path `p`: the part of its file name after the final
/// dot; nothing when the file name has no dot, or only a leading one.
pub open spec fn extension_spec(p: Seq<char>) -> Option<Seq<char>> {
    match file_name_spec(p) {
        Option::None => Option::None,
        Option::Some(f) => match dot_split(f) {
            Option::None => Option::None,
            Option::Some(e) => if e.len() + 1 < f.len() {
                Option::Some(e)
            } else {
                Option::None
            },
        },
    }
}

/// The extensions the parser's classifier accepts.
pub open spec fn recognized_ext(e: Seq<char>) -> bool {
    ||| e == "js"@
    ||| e == "mjs"@
    ||| e == "cjs"@
    ||| e == "jsx"@
    ||| e == "ts"@
    ||| e == "mts"@
    ||| e == "cts"@
    ||| e == "tsx"@
}

/// Whether a path's name marks it as a parseable source file: its extension
/// is one the classifier accepts. A function of the path characters alone.
pub open spec fn source_kind_spec(p: Seq<char>) -> bool {
    match extension_spec(p) {
        Option::Some(e) => recognized_ext(e),
        Option::None => false,
    }
}

/// Relies on `oxc_span::SourceType::from_path`, which succeeds exactly when
/// the path has a file name whose extension is one of the eight it lists
/// ("js", "mjs", "cjs", "jsx", "ts", "mts", "cts", "tsx"); it reads the
/// path string alone, through `Path::file_name` and `Path::extension`,
/// whose documented rules `file_name_spec` and `extension_spec` restate.
#[verifier::external_body]
pub(crate) fn recognized_source_kind(path: &str) -> (r: bool)
    ensures
        r == source_kind_spec(path@),
{
    oxc_span::SourceType::from_path(path).is_ok()
}

/// Relies on `oxc_resolver::ResolverImpl::resolve`, which maps a containing
/// directory and a specifier to the absolute path of the module, probing
/// the filesystem as the resolution algorithm demands. Because the answer
/// depends on what is on disk, nothing is promised of it; the engine states
/// what holds of every outcome.
#[verifier::external_body]
pub(crate) fn resolve_specifier(
    resolver: &oxc_resolver::Resolver,
    directory: &str,
    specifier: &str,
) -> ResolveOutcome {
    match resolver.resolve(directory, specifier) {
        Ok(resolution) => ResolveOutcome::Resolved(
            resolution.path().to_string_lossy().into_owned(),
        ),
        Err(oxc_resolver::ResolveError::Builtin { .. }) => ResolveOutcome::BuiltinModule,
        Err(e) => ResolveOutcome::Failed(e.to_string()),
    }
}

} // verus!
