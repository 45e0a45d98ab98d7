//! Canonical keys for watched paths: home expansion, then resolution against a base directory.
use vstd::prelude::*;

verus! {

/// Whether `p` names a path under the home directory: `~` alone, or `~` followed by `/`.
pub open spec fn home_prefixed(p: Seq<char>) -> bool {
    p.len() > 0 && p[0] == '~' && (p.len() == 1 || p[1] == '/')
}

/// Whether `p` is absolute.
pub open spec fn is_absolute(p: Seq<char>) -> bool {
    p.len() > 0 && p[0] == '/'
}

/// `rel` appended to `base`, with a separator between them unless `base` is empty or already
/// ends with one.
pub open spec fn join_path(base: Seq<char>, rel: Seq<char>) -> Seq<char> {
    if base.len() == 0 || base.last() == '/' {
        base + rel
    } else {
        base + seq!['/'] + rel
    }
}

/// `p` itself when it is absolute, else `p` resolved against `base`.
pub open spec fn absolute_of(p: Seq<char>, base: Seq<char>) -> Seq<char> {
    if is_absolute(p) {
        p
    } else {
        join_path(base, p)
    }
}

/// Whether `key` is the canonical key of `path` against the working directory `base`: exact,
/// but for a path under the home directory, whose location is left open; what follows its
/// `~` then ends the key.
pub open spec fn is_key_of(key: Seq<char>, path: Seq<char>, base: Seq<char>) -> bool {
    &&& !home_prefixed(path) ==> key == absolute_of(path, base)
    &&& home_prefixed(path) ==> key.len() >= path.len() - 1 && key.subrange(
        key.len() - (path.len() - 1),
        key.len() as int,
    ) == path.subrange(1, path.len() as int)
}

/// Relies on shellexpand::tilde, as it behaves on Unix: a path that does not start with `~`
/// followed by `/` or by nothing comes back unchanged; one that does has its `~` replaced by the home directory,
/// when one is known, so that what followed the `~` ends the result either way.
#[verifier::external_body]
fn expand_home(path: &str) -> (r: String)
    ensures
        !home_prefixed(path@) ==> r@ == path@,
        home_prefixed(path@) ==> r@.len() >= path@.len() - 1 && r@.subrange(
            r@.len() - (path@.len() - 1),
            r@.len() as int,
        ) == path@.subrange(1, path@.len() as int),
{
    shellexpand::tilde(path).into_owned()
}

/// Whether the first character of `p` is `c`.
fn starts_with_char(p: &str, c: char) -> (r: bool)
    ensures
        r == (p@.len() > 0 && p@[0] == c),
{
    p.unicode_len() > 0 && p.get_char(0) == c
}

/// The canonical key of `path`: home expanded, then made absolute against `base`, the working
/// directory.
pub fn make_absolute_path(path: &str, base: &str) -> (r: String)
    ensures
        is_key_of(r@, path@, base@),
{
    let expanded = expand_home(path);
    if starts_with_char(expanded.as_str(), '/') {
        return expanded;
    }
    let mut joined = String::from_str(base);
    let base_len = base.unicode_len();
    if base_len > 0 && base.get_char(base_len - 1) != '/' {
        proof {
            reveal_strlit("/");
        }
        joined.append("/");
    }
    joined.append(expanded.as_str());
    proof {
        let e = expanded@;
        assert(base@.len() > 0 ==> base@.last() == base@[base_len - 1]);
        if home_prefixed(path@) {
            let s = path@.subrange(1, path@.len() as int);
            assert(joined@.subrange(joined@.len() - s.len(), joined@.len() as int) =~= e.subrange(
                e.len() - s.len(),
                e.len() as int,
            ));
        } else {
            assert(joined@ =~= absolute_of(path@, base@));
        }
    }
    joined
}

} // verus!
