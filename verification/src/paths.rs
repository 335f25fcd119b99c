//! Relations between canonical paths, read as sequences of characters.

use vstd::prelude::*;
use crate::text::{chars_of, contains_from, starts_with};

verus! {

/// A path lies at or under a prefix when it is the prefix itself or starts
/// with the prefix followed by `/`. A path that merely begins with the text
/// of the prefix, as `/r/alphabet` does with `/r/alpha`, lies elsewhere.
pub open spec fn at_or_under(path: Seq<char>, prefix: Seq<char>) -> bool {
    path == prefix || prefix.push('/').is_prefix_of(path)
}

/// A path is a descendant of a directory when it starts with the directory's
/// path followed by `/`.
pub open spec fn is_descendant(path: Seq<char>, dir: Seq<char>) -> bool {
    dir.push('/').is_prefix_of(path)
}

/// A path is a direct child of a parent when it starts with the parent followed
/// by `/` and holds no further `/` after that.
pub open spec fn is_direct_child(path: Seq<char>, parent: Seq<char>) -> bool {
    is_descendant(path, parent) && !path.skip(parent.len() as int + 1).contains('/')
}

/// A path belongs to the tree of a directory when it is the directory or one
/// of its descendants: when it lies at or under the directory's path.
pub open spec fn in_tree(path: Seq<char>, dir: Seq<char>) -> bool {
    path == dir || is_descendant(path, dir)
}

/// A copy of `chars` with `/` appended.
pub fn with_slash(chars: &Vec<char>) -> (out: Vec<char>)
    ensures
        out@ == chars@.push('/'),
{
    let mut out: Vec<char> = Vec::new();
    let mut i: usize = 0;
    while i < chars.len()
        invariant
            i <= chars.len(),
            out@ == chars@.take(i as int),
        decreases chars.len() - i,
    {
        out.push(chars[i]);
        i += 1;
    }
    assert(chars@.take(chars.len() as int) == chars@);
    out.push('/');
    out
}

/// Decides `at_or_under` for a path and a prefix.
pub fn path_at_or_under(path: &str, prefix: &str) -> (hit: bool)
    ensures
        hit == at_or_under(path@, prefix@),
{
    let p = chars_of(path);
    let q = chars_of(prefix);
    if p.len() == q.len() && starts_with(&p, &q) {
        assert(p@ =~= q@);
        return true;
    }
    let slashed = with_slash(&q);
    starts_with(&p, &slashed)
}

/// Decides `is_descendant` for a path and a directory.
pub fn path_is_descendant(path: &str, dir: &str) -> (hit: bool)
    ensures
        hit == is_descendant(path@, dir@),
{
    let p = chars_of(path);
    let slashed = with_slash(&chars_of(dir));
    starts_with(&p, &slashed)
}

/// Decides `is_direct_child` for a path and a parent.
pub fn path_is_direct_child(path: &str, parent: &str) -> (hit: bool)
    ensures
        hit == is_direct_child(path@, parent@),
{
    let p = chars_of(path);
    let slashed = with_slash(&chars_of(parent));
    if !starts_with(&p, &slashed) {
        return false;
    }
    !contains_from(&p, slashed.len(), '/')
}

/// Decides `in_tree` for a path and a directory.
pub fn path_in_tree(path: &str, dir: &str) -> (hit: bool)
    ensures
        hit == in_tree(path@, dir@),
{
    path_at_or_under(path, dir)
}

/// What lies at or under a prefix without being the prefix has a `/` right
/// behind the prefix.
pub proof fn law_under_a_prefix_a_slash_follows(path: Seq<char>, prefix: Seq<char>)
    requires
        at_or_under(path, prefix),
        path != prefix,
    ensures
        path.len() > prefix.len(),
        path[prefix.len() as int] == '/',
        prefix.is_prefix_of(path),
{
    let slashed = prefix.push('/');
    assert(slashed =~= path.subrange(0, slashed.len() as int));
    assert(path.subrange(0, slashed.len() as int)[prefix.len() as int] == slashed[prefix.len() as int]);
    assert forall|k: int| 0 <= k < prefix.len() implies prefix[k] == path[k] by {
        assert(slashed[k] == path.subrange(0, slashed.len() as int)[k]);
    }
    assert(prefix =~= path.subrange(0, prefix.len() as int));
}

/// A direct child is a descendant, and every descendant is longer than the
/// directory it descends from.
pub proof fn lemma_descendant_is_longer(path: Seq<char>, dir: Seq<char>)
    requires
        is_descendant(path, dir),
    ensures
        path.len() > dir.len(),
        path != dir,
{
}

/// Descent is transitive: what descends from a descendant of a directory
/// descends from the directory.
pub proof fn lemma_descendant_transitive(path: Seq<char>, mid: Seq<char>, dir: Seq<char>)
    requires
        is_descendant(path, mid),
        is_descendant(mid, dir),
    ensures
        is_descendant(path, dir),
{
    let a = dir.push('/');
    let b = mid.push('/');
    assert(a =~= mid.subrange(0, a.len() as int));
    assert(b =~= path.subrange(0, b.len() as int));
    assert forall|k: int| 0 <= k < a.len() implies a[k] == path[k] by {
        assert(a[k] == mid.subrange(0, a.len() as int)[k]);
        assert(mid[k] == b[k]);
        assert(b[k] == path.subrange(0, b.len() as int)[k]);
    }
    assert(a =~= path.subrange(0, a.len() as int));
}

} // verus!
