//! Dotted field paths such as `$.spec.containers.name`.

use vstd::prelude::*;
use crate::text::{join, join_seq, lemma_split_nonempty, push_char, push_str, split, split_seq, str_eq};

verus! {

/// The segments of a dotted path.
pub open spec fn segments(path: Seq<char>) -> Seq<Seq<char>> {
    split_seq(path, '.')
}

/// Whether a segment is not empty.
pub open spec fn nonempty_segment(s: Seq<char>) -> bool {
    s.len() > 0
}

/// A path with its empty segments dropped: leading, trailing and doubled
/// dots disappear.
pub open spec fn normalized(path: Seq<char>) -> Seq<char> {
    join_seq(segments(path).filter(|s: Seq<char>| nonempty_segment(s)), '.')
}

/// Whether one path lies on the other's way down the tree: the segments of
/// one are a prefix of the segments of the other.
pub open spec fn allowed(path: Seq<char>, allow: Seq<char>) -> bool {
    segments(allow).is_prefix_of(segments(path)) || segments(path).is_prefix_of(segments(allow))
}

/// The path of child `name` below `parent`.
pub open spec fn child_path(parent: Seq<char>, name: Seq<char>) -> Seq<char> {
    parent.push('.') + name
}

/// Drops the empty segments of a dotted path.
pub fn normalize_path(path: &str) -> (r: String)
    ensures
        r@ == normalized(path@),
{
    let parts = split(path, '.');
    let mut kept: Vec<String> = Vec::new();
    let n = parts.len();
    let mut i: usize = 0;
    let ghost pred = |s: Seq<char>| nonempty_segment(s);
    while i < n
        invariant
            n == parts@.len(),
            i <= n,
            parts.deep_view() == segments(path@),
            pred == (|s: Seq<char>| nonempty_segment(s)),
            kept.deep_view() == parts.deep_view().take(i as int).filter(pred),
        decreases n - i,
    {
        let ghost before = kept.deep_view();
        proof {
            assert(parts.deep_view().take(i + 1).drop_last() =~= parts.deep_view().take(i as int));
            assert(parts.deep_view().take(i + 1).last() == parts@[i as int]@);
            reveal(Seq::filter);
        }
        if parts[i].as_str().unicode_len() > 0 {
            kept.push(parts[i].clone());
            proof {
                assert(kept.deep_view() =~= before.push(parts@[i as int]@));
            }
        }
        i = i + 1;
    }
    proof {
        assert(parts.deep_view().take(n as int) =~= parts.deep_view());
    }
    join(&kept, '.')
}

/// Whether `path` and `allow` agree on every segment that both have, so
/// that one is an ancestor of the other or they are equal.
pub fn path_allowed(path: &str, allow: &str) -> (r: bool)
    ensures
        r == allowed(path@, allow@),
{
    let p = split(path, '.');
    let a = split(allow, '.');
    proof {
        lemma_split_nonempty(path@, '.');
        lemma_split_nonempty(allow@, '.');
    }
    let m = if p.len() < a.len() { p.len() } else { a.len() };
    let mut i: usize = 0;
    while i < m
        invariant
            m <= p@.len(),
            m <= a@.len(),
            m == p@.len() || m == a@.len(),
            p.deep_view() == segments(path@),
            a.deep_view() == segments(allow@),
            i <= m,
            forall|k: int| 0 <= k < i ==> p.deep_view()[k] == a.deep_view()[k],
        decreases m - i,
    {
        if !str_eq(p[i].as_str(), a[i].as_str()) {
            proof {
                assert(p.deep_view()[i as int] != a.deep_view()[i as int]);
            }
            return false;
        }
        i = i + 1;
    }
    true
}

/// The path of child `name` below `parent`.
pub fn join_child(parent: &str, name: &str) -> (r: String)
    ensures
        r@ == child_path(parent@, name@),
{
    let mut r = String::new();
    push_str(&mut r, parent);
    push_char(&mut r, '.');
    push_str(&mut r, name);
    proof {
        assert(r@ =~= child_path(parent@, name@));
    }
    r
}

/// Path permission is symmetric: a path is allowed by a rule exactly when
/// the rule's path is allowed by the path.
pub proof fn law_allowed_symmetric(path: Seq<char>, allow: Seq<char>)
    ensures
        allowed(path, allow) == allowed(allow, path),
{
}

/// Every path allows itself.
pub proof fn law_allowed_reflexive(path: Seq<char>)
    ensures
        allowed(path, path),
{
}

/// A rule allows everything below its own path: when the rule's segments
/// begin a path's segments, they begin those of each child of the path too.
pub proof fn law_allowed_below(path: Seq<char>, allow: Seq<char>, name: Seq<char>)
    requires
        !name.contains('.'),
        segments(allow).is_prefix_of(segments(path)),
    ensures
        segments(allow).is_prefix_of(segments(child_path(path, name))),
        allowed(child_path(path, name), allow),
{
    lemma_split_child(path, name);
    let a = segments(allow);
    let p = segments(path);
    assert(p.push(name).subrange(0, a.len() as int) =~= p.subrange(0, a.len() as int));
}

/// Splitting a child path gives the parent's segments and the child's name.
pub proof fn lemma_split_child(parent: Seq<char>, name: Seq<char>)
    requires
        !name.contains('.'),
    ensures
        segments(child_path(parent, name)) == segments(parent).push(name),
    decreases name.len(),
{
    let full = child_path(parent, name);
    if name.len() == 0 {
        assert(full =~= parent.push('.'));
        assert(full.drop_last() =~= parent);
        assert(full.last() == '.');
        assert(segments(full) == segments(parent).push(Seq::<char>::empty()));
        assert(name =~= Seq::<char>::empty());
    } else {
        let shorter = name.drop_last();
        assert(!shorter.contains('.')) by {
            if shorter.contains('.') {
                let k = choose|k: int| 0 <= k < shorter.len() && shorter[k] == '.';
                assert(name[k] == '.');
            }
        }
        lemma_split_child(parent, shorter);
        assert(full.drop_last() =~= child_path(parent, shorter));
        assert(full.last() == name.last());
        assert(name.last() != '.') by {
            assert(name[name.len() - 1] == name.last());
        }
        let prev = segments(child_path(parent, shorter));
        assert(prev == segments(parent).push(shorter));
        assert(segments(full) == prev.update(prev.len() - 1, prev.last().push(name.last())));
        assert(shorter.push(name.last()) =~= name);
        assert(prev.update(prev.len() - 1, prev.last().push(name.last())) =~= segments(
            parent,
        ).push(name));
    }
}

} // verus!
