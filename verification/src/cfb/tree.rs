//! The red-black trees a storage keeps its children in, read as what they
//! hold: every entry reachable from the tree's root by sibling links.

use vstd::prelude::*;

use super::dir_entry::{DirEntry, DirId};
use super::error::Error;
use super::names::name_less;
use crate::text::{lemma_name_order_flip, name_order};

verus! {

/// Whether entry `to` is reachable from entry `from` by at most `k` steps
/// along left and right sibling links.
pub open spec fn reaches(entries: Seq<DirEntry>, from: u32, to: u32, k: nat) -> bool
    decreases k,
{
    from == to || (k > 0 && from < entries.len() && (
        (entries[from as int].left matches Some(l) && reaches(entries, l.0, to, (k - 1) as nat))
        || (entries[from as int].right matches Some(r) && reaches(entries, r.0, to, (k - 1) as nat))))
}

/// Whether entry `x` is in the tree whose root is `top`.
pub open spec fn in_tree(entries: Seq<DirEntry>, top: Option<DirId>, x: u32) -> bool {
    top matches Some(t) && exists|k: nat| reaches(entries, t.0, x, k)
}

/// Whether a link, if there is one, is to an entry `found` holds.
pub open spec fn link_held(found: Seq<u32>, link: Option<DirId>) -> bool {
    match link {
        Some(l) => found.contains(l.0),
        None => true,
    }
}

/// Whether `x` is in `a` or in `b`.
pub open spec fn held(a: Seq<u32>, b: Seq<u32>, x: u32) -> bool {
    a.contains(x) || b.contains(x)
}

/// Whether a link, if there is one, is to an entry in `a` or in `b`.
pub open spec fn link_ok(a: Seq<u32>, b: Seq<u32>, link: Option<DirId>) -> bool {
    match link {
        Some(l) => held(a, b, l.0),
        None => true,
    }
}

/// What a list holds once one more is pushed.
pub proof fn lemma_contains_push(s: Seq<u32>, v: u32, x: u32)
    ensures
        s.push(v).contains(x) <==> (s.contains(x) || x == v),
{
    if s.contains(x) {
        let w = choose|w: int| 0 <= w < s.len() && s[w] == x;
        assert(s.push(v)[w] == x);
    }
    if x == v {
        assert(s.push(v)[s.len() as int] == v);
    }
    if s.push(v).contains(x) {
        let w = choose|w: int| 0 <= w < s.len() + 1 && s.push(v)[w] == x;
        if w < s.len() {
            assert(s[w] == x);
        }
    }
}

/// Moving the top of a stack onto a list, and pushing more onto the stack,
/// loses nothing either held.
pub proof fn lemma_held_step(found: Seq<u32>, stack: Seq<u32>, pushed: Seq<u32>, x: u32)
    requires
        stack.len() > 0,
        held(found, stack, x),
    ensures
        held(found.push(stack.last()), stack.drop_last() + pushed, x),
{
    lemma_contains_push(found, stack.last(), x);
    if stack.contains(x) && x != stack.last() {
        let w = choose|w: int| 0 <= w < stack.len() && stack[w] == x;
        assert((stack.drop_last() + pushed)[w] == x);
    }
}

/// A path can be extended by one more link at its far end.
pub proof fn lemma_reaches_extend(entries: Seq<DirEntry>, from: u32, y: u32, k: nat, z: u32)
    requires
        reaches(entries, from, y, k),
        y < entries.len(),
        entries[y as int].left == Some(DirId(z)) || entries[y as int].right == Some(DirId(z)),
    ensures
        reaches(entries, from, z, k + 1),
    decreases k,
{
    if from == y {
        assert(reaches(entries, z, z, k));
    } else {
        let l = entries[from as int].left;
        let r = entries[from as int].right;
        if let Some(ld) = l {
            if reaches(entries, ld.0, y, (k - 1) as nat) {
                lemma_reaches_extend(entries, ld.0, y, (k - 1) as nat, z);
                return;
            }
        }
        let rd = r->0;
        lemma_reaches_extend(entries, rd.0, y, (k - 1) as nat, z);
    }
}

/// A set of entries that holds the links of every member holds everything
/// reachable from any member.
pub proof fn lemma_closed_holds_reachable(entries: Seq<DirEntry>, found: Seq<u32>, y: u32, x: u32, k: nat)
    requires
        found.contains(y),
        forall|i: int| 0 <= i < found.len() ==> found[i] < entries.len(),
        forall|i: int| 0 <= i < found.len() ==> link_held(found, (#[trigger] entries[found[i] as int]).left),
        forall|i: int| 0 <= i < found.len() ==> link_held(found, (#[trigger] entries[found[i] as int]).right),
        reaches(entries, y, x, k),
    ensures
        found.contains(x),
    decreases k,
{
    if y != x {
        let i = choose|i: int| 0 <= i < found.len() && found[i] == y;
        let e = entries[found[i] as int];
        if let Some(ld) = e.left {
            if reaches(entries, ld.0, x, (k - 1) as nat) {
                lemma_closed_holds_reachable(entries, found, ld.0, x, (k - 1) as nat);
                return;
            }
        }
        let rd = e.right->0;
        lemma_closed_holds_reachable(entries, found, rd.0, x, (k - 1) as nat);
    }
}

/// Whether `ids` lists exactly the members of the tree rooted at `top`, each
/// once.
pub open spec fn lists_tree(entries: Seq<DirEntry>, top: Option<DirId>, ids: Seq<u32>) -> bool {
    &&& forall|i: int, j: int| 0 <= i < j < ids.len() ==> ids[i] != ids[j]
    &&& forall|i: int| 0 <= i < ids.len() ==> ids[i] < entries.len() && in_tree(entries, top, #[trigger] ids[i])
    &&& forall|x: u32| in_tree(entries, top, x) ==> ids.contains(x)
}

/// Why a tree cannot be listed: a member that is not an entry, or a member
/// reached twice.
pub open spec fn tree_fault(entries: Seq<DirEntry>, top: Option<DirId>, e: Error) -> bool {
    ||| (e matches Error::DirEntryOutOfRange { id, count } && id >= entries.len()
        && count == entries.len() as u32 && in_tree(entries, top, id))
    ||| (e matches Error::CorruptDirectoryTree { id } && in_tree(entries, top, id))
}

fn push_link(stack: &mut Vec<u32>, link: Option<DirId>)
    ensures
        link matches Some(d) ==> final(stack)@ == old(stack)@.push(d.0),
        link is None ==> final(stack)@ == old(stack)@,
{
    if let Some(d) = link {
        stack.push(d.0);
    }
}

/// The members of the tree rooted at `top`, in the order a depth-first walk
/// that takes right before left meets them.
///
/// The children are a red-black tree of siblings, not a list, so this is a
/// traversal rather than a walk down a chain. Each entry is visited once; a
/// repeat means the links form a cycle or a diamond.
pub fn tree_members(entries: &Vec<DirEntry>, top: Option<DirId>) -> (r: Result<Vec<u32>, Error>)
    ensures
        r matches Ok(ids) ==> lists_tree(entries@, top, ids@),
        r matches Err(e) ==> tree_fault(entries@, top, e),
{
    let mut found: Vec<u32> = Vec::new();
    let mut seen: Vec<bool> = Vec::new();
    let mut k: usize = 0;
    while k < entries.len()
        invariant
            k <= entries.len(),
            seen@.len() == k,
            forall|j: int| 0 <= j < k ==> !seen@[j],
            count_true(seen@) == 0,
        decreases entries.len() - k,
    {
        assert(seen@.push(false).drop_last() =~= seen@);
        seen.push(false);
        k = k + 1;
    }
    let mut stack: Vec<u32> = Vec::new();
    push_link(&mut stack, top);
    proof {
        if let Some(t) = top {
            assert(reaches(entries@, t.0, t.0, 0));
            assert(stack@[0] == t.0);
        }
    }
    while stack.len() > 0
        invariant
            seen@.len() == entries@.len(),
            forall|x: u32| x < seen@.len() ==> (seen@[x as int] <==> found@.contains(x)),
            forall|i: int, j: int| 0 <= i < j < found@.len() ==> found@[i] != found@[j],
            forall|i: int| 0 <= i < found@.len() ==> found@[i] < entries@.len() && in_tree(entries@, top, #[trigger] found@[i]),
            forall|i: int| 0 <= i < stack@.len() ==> in_tree(entries@, top, #[trigger] stack@[i]),
            forall|i: int| 0 <= i < found@.len() ==> link_ok(found@, stack@, (#[trigger] entries@[found@[i] as int]).left),
            forall|i: int| 0 <= i < found@.len() ==> link_ok(found@, stack@, (#[trigger] entries@[found@[i] as int]).right),
            top matches Some(t) ==> held(found@, stack@, t.0),
            count_true(seen@) == found@.len(),
        decreases entries@.len() - found@.len(), stack@.len(),
    {
        let ghost before = stack@;
        let child = stack.pop().unwrap();
        assert(in_tree(entries@, top, child)) by {
            assert(before[before.len() - 1] == child);
        }
        if child as usize >= entries.len() {
            return Err(Error::DirEntryOutOfRange { id: child, count: entries.len() as u32 });
        }
        if seen[child as usize] {
            return Err(Error::CorruptDirectoryTree { id: child });
        }
        proof {
            lemma_count_true_set(seen@, child as int);
            lemma_count_true_bound(seen@.update(child as int, true));
        }
        seen.set(child as usize, true);
        let ghost old_found = found@;
        found.push(child);
        let entry = &entries[child as usize];
        proof {
            let t = top->0;
            let k = choose|k: nat| reaches(entries@, t.0, child, k);
            if let Some(l) = entry.left {
                lemma_reaches_extend(entries@, t.0, child, k, l.0);
            }
            if let Some(r) = entry.right {
                lemma_reaches_extend(entries@, t.0, child, k, r.0);
            }
        }
        let ghost mid = stack@;
        push_link(&mut stack, entry.left);
        push_link(&mut stack, entry.right);
        proof {
            let pushed = stack@.subrange(mid.len() as int, stack@.len() as int);
            assert(stack@ =~= before.drop_last() + pushed);
            assert(mid =~= before.drop_last());
            assert forall|x: u32| held(old_found, before, x) implies held(found@, stack@, x) by {
                lemma_held_step(old_found, before, pushed, x);
            }
            if let Some(l) = entry.left {
                assert(stack@[mid.len() as int] == l.0);
            }
            if let Some(r) = entry.right {
                assert(stack@[stack@.len() - 1] == r.0);
            }
            assert forall|i: int| 0 <= i < found@.len() implies
                link_ok(found@, stack@, (#[trigger] entries@[found@[i] as int]).left)
                && link_ok(found@, stack@, entries@[found@[i] as int].right) by {
                if i < old_found.len() {
                    assert(found@[i] == old_found[i]);
                }
            }
            assert forall|x: u32| x < seen@.len() implies (seen@[x as int] <==> found@.contains(x)) by {
                lemma_contains_push(old_found, child, x);
            }
            assert forall|i: int| 0 <= i < stack@.len() implies in_tree(entries@, top, #[trigger] stack@[i]) by {
                if i < mid.len() {
                    assert(stack@[i] == before[i]);
                }
            }
        }
    }
    proof {
        assert forall|x: u32| in_tree(entries@, top, x) implies found@.contains(x) by {
            let t = top->0;
            let k = choose|k: nat| reaches(entries@, t.0, x, k);
            lemma_closed_holds_reachable(entries@, found@, t.0, x, k);
        }
    }
    Ok(found)
}

/// How many entries of `s` are true.
pub open spec fn count_true(s: Seq<bool>) -> nat
    decreases s.len(),
{
    if s.len() == 0 {
        0
    } else {
        count_true(s.drop_last()) + if s.last() { 1nat } else { 0nat }
    }
}

/// No more entries are true than there are entries.
pub proof fn lemma_count_true_bound(s: Seq<bool>)
    ensures
        count_true(s) <= s.len(),
    decreases s.len(),
{
    if s.len() > 0 {
        lemma_count_true_bound(s.drop_last());
    }
}

/// Setting a false entry true counts one more.
pub proof fn lemma_count_true_set(s: Seq<bool>, i: int)
    requires
        0 <= i < s.len(),
        !s[i],
    ensures
        count_true(s.update(i, true)) == count_true(s) + 1,
    decreases s.len(),
{
    let t = s.update(i, true);
    if i == s.len() - 1 {
        assert(t.drop_last() =~= s.drop_last());
    } else {
        assert(t.drop_last() =~= s.drop_last().update(i, true));
        lemma_count_true_set(s.drop_last(), i);
    }
}


/// Whether the entries `ids` names are in the format's name order, each
/// sorting no later than the next.
pub open spec fn in_name_order(entries: Seq<DirEntry>, ids: Seq<u32>) -> bool {
    forall|i: int| 0 <= i < ids.len() - 1 ==>
        name_order(entries[ids[i] as int].name@, entries[#[trigger] ids[i + 1] as int].name@) <= 0
}

/// What a list holds once one more is inserted.
pub proof fn lemma_contains_insert(s: Seq<u32>, p: int, v: u32, x: u32)
    requires
        0 <= p <= s.len(),
    ensures
        s.insert(p, v).contains(x) <==> (s.contains(x) || x == v),
{
    let t = s.insert(p, v);
    if s.contains(x) {
        let w = choose|w: int| 0 <= w < s.len() && s[w] == x;
        if w < p {
            assert(t[w] == x);
        } else {
            assert(t[w + 1] == x);
        }
    }
    if x == v {
        assert(t[p] == v);
    }
    if t.contains(x) {
        let w = choose|w: int| 0 <= w < t.len() && t[w] == x;
        if w < p {
            assert(s[w] == x);
        } else if w > p {
            assert(s[w - 1] == x);
        }
    }
}

/// Inserting an entry after every name that does not sort after it and
/// before one that does keeps a list in name order.
proof fn lemma_insert_in_order(es: Seq<DirEntry>, before: Seq<u32>, p: int, x: u32)
    requires
        0 <= p <= before.len(),
        in_name_order(es, before),
        forall|k: int| 0 <= k < p ==> !(name_order(es[x as int].name@, es[before[k] as int].name@) < 0),
        p < before.len() ==> name_order(es[x as int].name@, es[before[p] as int].name@) < 0,
    ensures
        in_name_order(es, before.insert(p, x)),
{
    let out = before.insert(p, x);
    assert forall|k: int| 0 <= k < out.len() - 1 implies
        name_order(es[out[k] as int].name@, es[#[trigger] out[k + 1] as int].name@) <= 0 by {
        if k + 1 == p {
            assert(out[k] == before[k] && out[k + 1] == x);
            lemma_name_order_flip(es[x as int].name@, es[before[k] as int].name@);
        } else if k == p {
            assert(out[k] == x && out[k + 1] == before[k]);
        } else if k + 1 < p {
            assert(out[k] == before[k] && out[k + 1] == before[k + 1]);
            assert(name_order(es[before[k] as int].name@, es[before[k + 1] as int].name@) <= 0);
        } else {
            let j = k - 1;
            assert(out[k] == before[j] && out[k + 1] == before[j + 1]);
            assert(name_order(es[before[j] as int].name@, es[before[j + 1] as int].name@) <= 0);
        }
    }
}

/// The same entries, stably sorted into the format's name order.
#[verifier::spinoff_prover]
pub fn sort_by_name(entries: &Vec<DirEntry>, ids: &Vec<u32>) -> (r: Vec<u32>)
    requires
        forall|i: int| 0 <= i < ids@.len() ==> ids@[i] < entries@.len(),
        forall|i: int, j: int| 0 <= i < j < ids@.len() ==> ids@[i] != ids@[j],
    ensures
        r@.len() == ids@.len(),
        forall|x: u32| r@.contains(x) <==> ids@.contains(x),
        forall|i: int, j: int| 0 <= i < j < r@.len() ==> r@[i] != r@[j],
        forall|i: int| 0 <= i < r@.len() ==> r@[i] < entries@.len(),
        in_name_order(entries@, r@),
{
    let mut out: Vec<u32> = Vec::new();
    let mut i: usize = 0;
    while i < ids.len()
        invariant
            i <= ids.len(),
            forall|k: int| 0 <= k < ids@.len() ==> ids@[k] < entries@.len(),
            forall|a: int, b: int| 0 <= a < b < ids@.len() ==> ids@[a] != ids@[b],
            out@.len() == i,
            forall|x: u32| out@.contains(x) <==> ids@.take(i as int).contains(x),
            forall|a: int, b: int| 0 <= a < b < out@.len() ==> out@[a] != out@[b],
            forall|k: int| 0 <= k < out@.len() ==> out@[k] < entries@.len(),
            in_name_order(entries@, out@),
        decreases ids.len() - i,
    {
        let x = ids[i];
        let name = entries[x as usize].name.as_str();
        let mut p: usize = 0;
        while p < out.len()
            invariant
                p <= out@.len(),
                forall|k: int| 0 <= k < out@.len() ==> out@[k] < entries@.len(),
                name@ == entries@[x as int].name@,
                forall|k: int| 0 <= k < p ==> !(name_order(name@, entries@[out@[k] as int].name@) < 0),
            ensures
                p <= out@.len(),
                forall|k: int| 0 <= k < p ==> !(name_order(name@, entries@[out@[k] as int].name@) < 0),
                p < out@.len() ==> name_order(name@, entries@[out@[p as int] as int].name@) < 0,
            decreases out@.len() - p,
        {
            if name_less(name, entries[out[p] as usize].name.as_str()) {
                break;
            }
            p = p + 1;
        }
        let ghost before = out@;
        proof {
            assert(!before.contains(x)) by {
                if before.contains(x) {
                    assert(ids@.take(i as int).contains(x));
                    let w = choose|w: int| 0 <= w < i && ids@.take(i as int)[w] == x;
                    assert(ids@[w] == ids@[i as int]);
                }
            }
        }
        out.insert(p, x);
        proof {
            assert(out@ == before.insert(p as int, x));
            assert forall|y: u32| out@.contains(y) <==> ids@.take(i + 1).contains(y) by {
                lemma_contains_insert(before, p as int, x, y);
                lemma_contains_push(ids@.take(i as int), x, y);
                assert(ids@.take(i + 1) =~= ids@.take(i as int).push(x));
            }
            assert forall|a: int, b: int| 0 <= a < b < out@.len() implies out@[a] != out@[b] by {
                if a == p {
                    if before.contains(out@[b]) {} else { assert(b - 1 >= 0 && before[b - 1] == out@[b]); }
                } else if b == p {
                    assert(before[a] == out@[a]);
                } else {
                    let a2 = if a < p { a } else { a - 1 };
                    let b2 = if b < p { b } else { b - 1 };
                    assert(before[a2] == out@[a] && before[b2] == out@[b]);
                }
            }
            lemma_insert_in_order(entries@, before, p as int, x);
        }
        i = i + 1;
    }
    assert(ids@.take(ids.len() as int) =~= ids@);
    out
}

} // verus!
