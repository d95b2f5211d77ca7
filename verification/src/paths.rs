//! Path strings as the engine sees them: absolute paths are plain character
//! sequences, compared for equality only. Joining, component membership and
//! prefix stripping are defined here over those sequences; the engine never
//! touches the filesystem itself.

use vstd::prelude::*;

verus! {

/// A path is absolute when it starts with the path separator.
pub open spec fn is_absolute(p: Seq<char>) -> bool {
    p.len() > 0 && p[0] == '/'
}

/// Joining a path onto a base directory: an absolute path replaces the base,
/// anything else is appended behind a single separator.
pub open spec fn join_spec(base: Seq<char>, p: Seq<char>) -> Seq<char> {
    if is_absolute(p) {
        p
    } else if base.len() > 0 && base[base.len() - 1] == '/' {
        base + p
    } else {
        base + seq!['/'] + p
    }
}

/// Join `p` onto the base directory `base`.
pub fn join_path(base: &str, p: &str) -> (r: String)
    ensures
        r@ == join_spec(base@, p@),
{
    let p_len = p.unicode_len();
    if p_len > 0 && p.get_char(0) == '/' {
        return p.to_owned();
    }
    let base_len = base.unicode_len();
    let mut r = base.to_owned();
    if !(base_len > 0 && base.get_char(base_len - 1) == '/') {
        r.append("/");
        proof {
            reveal_strlit("/");
            assert(r@ =~= base@ + seq!['/']);
        }
    }
    r.append(p);
    proof {
        if !(base@.len() > 0 && base@[base@.len() - 1] == '/') {
            assert(r@ =~= base@ + seq!['/'] + p@);
        }
    }
    r
}

/// `[a, b)` delimits one component of path `p`: a maximal non-empty run of
/// characters free of the separator.
pub open spec fn is_component_at(p: Seq<char>, a: int, b: int) -> bool {
    &&& 0 <= a < b <= p.len()
    &&& (a == 0 || p[a - 1] == '/')
    &&& (b == p.len() || p[b] == '/')
    &&& forall|k: int| a <= k < b ==> p[k] != '/'
}

/// Some component of `p` is one of `names`.
pub open spec fn has_component_spec(p: Seq<char>, names: Seq<Seq<char>>) -> bool {
    exists|a: int, b: int, i: int|
        is_component_at(p, a, b) && 0 <= i < names.len() && p.subrange(a, b) == names[i]
}

/// Character-sequence equality of two string slices.
pub fn str_eq(a: &str, b: &str) -> (r: bool)
    ensures
        r == (a@ == b@),
{
    let a_len = a.unicode_len();
    let b_len = b.unicode_len();
    if a_len != b_len {
        proof {
            assert(a@ =~= b@ ==> a@.len() == b@.len());
        }
        return false;
    }
    let mut i: usize = 0;
    while i < a_len
        invariant
            i <= a_len,
            a_len == a@.len(),
            b_len == b@.len(),
            a_len == b_len,
            forall|k: int| 0 <= k < i ==> a@[k] == b@[k],
        decreases a_len - i,
    {
        if a.get_char(i) != b.get_char(i) {
            proof {
                assert(a@[i as int] != b@[i as int]);
                assert(a@ != b@);
            }
            return false;
        }
        i = i + 1;
    }
    proof {
        assert(a@ =~= b@);
    }
    true
}

/// Whether any component of the path `p` equals one of the given directory
/// names. The engine uses this to stop its descent at vendored directories.
/// The segment of `p` that ends at the boundary `j` and starts at `start`
/// matches none of `names`, and no earlier component did either; then no
/// component ending at or before `j` matches.
fn segment_matches(p: &str, start: usize, j: usize, names: &Vec<String>) -> (r: bool)
    requires
        start < j <= p@.len(),
    ensures
        r == (exists|i: int|
            0 <= i < names@.len() && p@.subrange(start as int, j as int) == (
            #[trigger] names@[i])@),
{
    let ghost names_v = names@.map_values(|s: String| s@);
    let seg = p.substring_char(start, j);
    let mut i: usize = 0;
    while i < names.len()
        invariant
            i <= names.len(),
            seg@ == p@.subrange(start as int, j as int),
            names_v == names@.map_values(|s: String| s@),
            forall|k: int| 0 <= k < i ==> seg@ != names_v[k],
        decreases names.len() - i,
    {
        if str_eq(seg, names[i].as_str()) {
            proof {
                assert(0 <= i < names@.len() && p@.subrange(start as int, j as int) == (
                names@[i as int])@);
            }
            return true;
        }
        i = i + 1;
    }
    proof {
        assert forall|k: int| 0 <= k < names@.len() implies p@.subrange(start as int, j as int)
            != (#[trigger] names@[k])@ by {
            assert(names_v[k] == names@[k]@);
        }
    }
    false
}

/// Whether any component of the path `p` equals one of the given directory
/// names. The engine uses this to stop its descent at vendored directories.
pub fn path_has_component(p: &str, names: &Vec<String>) -> (r: bool)
    ensures
        r == has_component_spec(p@, names@.map_values(|s: String| s@)),
{
    let ghost names_v = names@.map_values(|s: String| s@);
    let len = p.unicode_len();
    let mut start: usize = 0;
    let mut j: usize = 0;
    while j < len
        invariant
            start <= j <= len,
            len == p@.len(),
            names_v == names@.map_values(|s: String| s@),
            start == 0 || (start - 1 < len && p@[start - 1] == '/'),
            forall|k: int| start <= k < j ==> p@[k] != '/',
            forall|a: int, b: int, i: int|
                is_component_at(p@, a, b) && b < j && 0 <= i < names_v.len() ==> p@.subrange(
                    a,
                    b,
                ) != names_v[i],
        decreases len - j,
    {
        if p.get_char(j) == '/' {
            if j > start {
                if segment_matches(p, start, j, names) {
                    proof {
                        found_witness(p@, names@, start as int, j as int);
                    }
                    return true;
                }
            }
            proof {
                // A component ending at this separator starts exactly at start,
                // so it is the segment just matched (or it is empty).
                assert forall|a: int, b: int, i: int|
                    is_component_at(p@, a, b) && b < j + 1 && 0 <= i
                        < names_v.len() implies p@.subrange(a, b) != names_v[i] by {
                    if b == j {
                        if a < start {
                            assert(p@[start - 1] == '/');
                        }
                        if a > start {
                            assert(p@[a - 1] != '/');
                        }
                        assert(a == start);
                        assert(names_v[i] == names@[i]@);
                    }
                }
            }
            start = j + 1;
        }
        j = j + 1;
    }
    if start < len {
        if segment_matches(p, start, len, names) {
            proof {
                found_witness(p@, names@, start as int, len as int);
            }
            return true;
        }
    }
    proof {
        assert forall|a: int, b: int, i: int|
            is_component_at(p@, a, b) && 0 <= i < names_v.len() implies p@.subrange(a, b)
            != names_v[i] by {
            if b == len {
                if a < start {
                    assert(p@[start - 1] == '/');
                }
                if a > start {
                    assert(p@[a - 1] != '/');
                }
                assert(a == start);
                assert(names_v[i] == names@[i]@);
            }
        }
    }
    false
}

/// A matched segment that is a whole component yields the existential of
/// `has_component_spec`.
proof fn found_witness(p: Seq<char>, names: Seq<String>, a: int, b: int)
    requires
        is_component_at(p, a, b),
        exists|i: int| 0 <= i < names.len() && p.subrange(a, b) == (#[trigger] names[i])@,
    ensures
        has_component_spec(p, names.map_values(|s: String| s@)),
{
    let i = choose|i: int| 0 <= i < names.len() && p.subrange(a, b) == (#[trigger] names[i])@;
    let names_v = names.map_values(|s: String| s@);
    assert(names_v[i] == names[i]@);
    assert(is_component_at(p, a, b) && 0 <= i < names_v.len() && p.subrange(a, b) == names_v[i]);
}

/// The index of the last separator in `p`, scanning down from `i`; `-1` when
/// there is none.
pub open spec fn last_sep_from(p: Seq<char>, i: int) -> int
    decreases i + 1,
{
    if i < 0 || i >= p.len() {
        -1
    } else if p[i] == '/' {
        i
    } else {
        last_sep_from(p, i - 1)
    }
}

/// The directory that holds the file `p`: everything before the last
/// separator, the lone separator when `p` sits directly under the root, and
/// nothing when `p` has no separator at all or is the root itself.
pub open spec fn dirname_spec(p: Seq<char>) -> Option<Seq<char>> {
    let j = last_sep_from(p, p.len() - 1);
    if j < 0 {
        Option::None
    } else if j == 0 {
        if p.len() == 1 {
            Option::None
        } else {
            Option::Some(p.subrange(0, 1))
        }
    } else {
        Option::Some(p.subrange(0, j))
    }
}

/// The containing directory of the file path `p`, if it has one.
pub fn dirname(p: &str) -> (r: Option<String>)
    ensures
        match r {
            Option::Some(d) => dirname_spec(p@) == Option::Some(d@),
            Option::None => dirname_spec(p@) == Option::<Seq<char>>::None,
        },
{
    let len = p.unicode_len();
    let mut i: usize = len;
    while i > 0
        invariant
            i <= len,
            len == p@.len(),
            last_sep_from(p@, len - 1) == last_sep_from(p@, i - 1),
        decreases i,
    {
        if p.get_char(i - 1) == '/' {
            if i - 1 == 0 {
                if len == 1 {
                    return None;
                }
                return Some(p.substring_char(0, 1).to_owned());
            }
            return Some(p.substring_char(0, i - 1).to_owned());
        }
        i = i - 1;
    }
    None
}

/// The label of `p` relative to the directory `base`: the remainder of `p`
/// when it lies under `base`, and `p` itself otherwise.
pub open spec fn rel_label_spec(base: Seq<char>, p: Seq<char>) -> Seq<char> {
    if p.len() > base.len() + 1 && p.subrange(0, base.len() as int) == base && p[base.len() as int]
        == '/' {
        p.subrange(base.len() + 1 as int, p.len() as int)
    } else {
        p
    }
}

/// A best-effort short label for the file `p`: its path relative to `base`
/// when it lies under it.
pub fn rel_label(base: &str, p: &str) -> (r: String)
    ensures
        r@ == rel_label_spec(base@, p@),
{
    let base_len = base.unicode_len();
    let p_len = p.unicode_len();
    if base_len < p_len && p_len - base_len > 1 && p.get_char(base_len) == '/' && str_eq(
        p.substring_char(0, base_len),
        base,
    ) {
        p.substring_char(base_len + 1, p_len).to_owned()
    } else {
        p.to_owned()
    }
}

} // verus!
