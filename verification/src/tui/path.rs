//! Directories above a path.

use vstd::prelude::*;
use vstd::slice::slice_subrange;

verus! {

/// The separator of paths.
pub const SLASH: u8 = 0x2f;

/// The component that stands for the directory itself.
pub const DOT: u8 = 0x2e;

/// What stands before the components of a path: the root, or a dot in front
/// of a relative path.
pub open spec fn lead(path: Seq<u8>) -> nat {
    if path.len() > 0 && (path[0] == SLASH || (path[0] == DOT && (path.len() == 1 || path[1]
        == SLASH))) {
        1
    } else {
        0
    }
}

/// Where the last component of a path begins: behind its last slash from
/// `from` on.
pub open spec fn component_at(path: Seq<u8>, from: nat) -> int
    decreases path.len(),
{
    if path.len() <= from {
        from as int
    } else if path.last() == SLASH {
        path.len() as int
    } else {
        component_at(path.drop_last(), from)
    }
}

/// A path without its last component and the slash before it.
pub open spec fn cut(path: Seq<u8>, from: nat) -> Seq<u8> {
    let at = component_at(path, from);
    path.take(if at > from {
        at - 1
    } else {
        at
    })
}

/// Whether a component leads nowhere.
pub open spec fn is_idle(component: Seq<u8>) -> bool {
    component.len() == 0 || (component.len() == 1 && component[0] == DOT)
}

/// A path without the components at its end that lead nowhere.
pub open spec fn without_idle_end(path: Seq<u8>, from: nat) -> Seq<u8>
    decreases path.len(),
{
    if from < path.len() && is_idle(path.skip(component_at(path, from))) && cut(
        path,
        from,
    ).len() < path.len() {
        without_idle_end(cut(path, from), from)
    } else {
        path
    }
}

/// The directory that holds what a path leads to: the path up to its last
/// component. The root of the file system and the empty path have none.
pub open spec fn parent(path: Seq<u8>) -> Option<Seq<u8>> {
    let from = lead(path);
    let whole = without_idle_end(path, from);
    if whole.len() > from {
        Some(without_idle_end(cut(whole, from), from))
    } else if path.len() > 0 && path[0] == DOT {
        Some(Seq::empty())
    } else {
        None
    }
}

fn find_component(path: &[u8], from: usize) -> (at: usize)
    requires
        from <= path@.len(),
    ensures
        at == component_at(path@, from as nat),
        from <= at <= path@.len(),
{
    let mut at: usize = path.len();
    assert(path@.take(at as int) == path@);
    while at > from && path[at - 1] != SLASH
        invariant
            from <= at <= path@.len(),
            component_at(path@, from as nat) == component_at(path@.take(at as int), from as nat),
        decreases at,
    {
        assert(path@.take(at as int).drop_last() == path@.take(at - 1));
        at -= 1;
    }
    at
}

fn cut_path(path: &[u8], from: usize) -> (r: &[u8])
    requires
        from <= path@.len(),
    ensures
        r@ == cut(path@, from as nat),
        from <= r@.len() <= path@.len(),
        from < path@.len() ==> r@.len() < path@.len(),
{
    let at: usize = find_component(path, from);
    let end: usize = if at > from {
        at - 1
    } else {
        at
    };
    let r = slice_subrange(path, 0, end);
    assert(r@ =~= cut(path@, from as nat));
    r
}

fn trim_idle_end(path: &[u8], from: usize) -> (r: &[u8])
    requires
        from <= path@.len(),
    ensures
        r@ == without_idle_end(path@, from as nat),
        from <= r@.len(),
    decreases path@.len(),
{
    if from < path.len() {
        let at: usize = find_component(path, from);
        let n: usize = path.len() - at;
        let ghost last = path@.skip(at as int);
        if n == 0 || (n == 1 && path[at] == DOT) {
            assert(is_idle(last));
            return trim_idle_end(cut_path(path, from), from);
        }
        assert(!is_idle(last));
    }
    path
}

/// The directory above a path.
pub fn parent_of(path: &Vec<u8>) -> (r: Option<Vec<u8>>)
    ensures
        match r {
            Some(p) => parent(path@) == Some(p@),
            None => parent(path@) is None,
        },
{
    let all = path.as_slice();
    let n: usize = all.len();
    let from: usize = if n > 0 && (all[0] == SLASH || (all[0] == DOT && (n == 1 || all[1]
        == SLASH))) {
        1
    } else {
        0
    };
    let whole = trim_idle_end(all, from);
    if whole.len() > from {
        let above = trim_idle_end(cut_path(whole, from), from);
        let mut r: Vec<u8> = Vec::new();
        r.extend_from_slice(above);
        assert(r@ =~= above@);
        Some(r)
    } else if n > 0 && all[0] == DOT {
        let r: Vec<u8> = Vec::new();
        assert(r@ =~= Seq::<u8>::empty());
        Some(r)
    } else {
        None
    }
}

// ---------------------------------------------------------------------------
// Laws
// ---------------------------------------------------------------------------

/// Whether a name is a component that leads somewhere.
pub open spec fn is_name(name: Seq<u8>) -> bool {
    !is_idle(name) && forall|i: int| 0 <= i < name.len() ==> #[trigger] name[i] != SLASH
}

proof fn lemma_last_component(dir: Seq<u8>, name: Seq<u8>, from: nat)
    requires
        from <= dir.len(),
        from < dir.len() ==> dir.last() == SLASH,
        forall|i: int| 0 <= i < name.len() ==> #[trigger] name[i] != SLASH,
    ensures
        component_at(dir + name, from) == dir.len(),
    decreases name.len(),
{
    let path = dir + name;
    if name.len() > 0 {
        let front = name.drop_last();
        assert forall|i: int| 0 <= i < front.len() implies #[trigger] front[i] != SLASH by {
            assert(front[i] == name[i]);
        }
        assert(name[name.len() - 1] != SLASH);
        assert(path.drop_last() =~= dir + front);
        lemma_last_component(dir, front, from);
    } else {
        assert(path =~= dir);
    }
}

/// The parent of a directory's entry is the directory.
pub proof fn law_an_entry_lies_in_its_directory(dir: Seq<u8>, name: Seq<u8>)
    requires
        dir.len() > lead(dir),
        without_idle_end(dir, lead(dir)) == dir,
        is_name(name),
    ensures
        parent(dir.push(SLASH) + name) == Some(dir),
{
    let front = dir.push(SLASH);
    let path = front + name;
    let from = lead(dir);
    assert(path[0] == dir[0]);
    assert(dir.len() > 1 ==> path[1] == dir[1]);
    assert(dir.len() == 1 ==> path[1] == SLASH);
    assert(lead(path) == from);
    lemma_last_component(front, name, from);
    assert(path.skip(front.len() as int) =~= name);
    assert(without_idle_end(path, from) == path);
    assert(cut(path, from) =~= dir);
}

/// The parent of an entry of the root is the root, which has none.
pub proof fn law_the_root_is_at_the_top(name: Seq<u8>)
    requires
        is_name(name),
    ensures
        parent(seq![SLASH] + name) == Some(seq![SLASH]),
        parent(seq![SLASH]) is None,
{
    let root = seq![SLASH];
    let path = root + name;
    lemma_last_component(root, name, 1);
    assert(path.skip(1) =~= name);
    assert(without_idle_end(path, 1) == path);
    assert(cut(path, 1) =~= root);
}

/// A slash at the end of a path does not change where it leads.
pub proof fn law_a_slash_at_the_end_does_not_count(path: Seq<u8>)
    requires
        path.len() > 0,
    ensures
        parent(path.push(SLASH)) == parent(path),
{
    let p = path.push(SLASH);
    let from = lead(path);
    assert(p[0] == path[0]);
    assert(path.len() > 1 ==> p[1] == path[1]);
    assert(lead(p) == from);
    assert(component_at(p, from) == p.len());
    assert(p.skip(p.len() as int) =~= Seq::<u8>::empty());
    assert(cut(p, from) =~= path);
    assert(without_idle_end(p, from) == without_idle_end(path, from));
}

} // verus!
