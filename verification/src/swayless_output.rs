//! The per-output tag state machine.
//!
//! One [`SwaylessOutput`] tracks, for a single physical output, which
//! logical tag is visible, which tag was visible just before it, and which
//! containers have been borrowed onto the visible tag from other tags.
//! Every mutating operation keeps the borrow bookkeeping well formed: a
//! container id is recorded under at most one owning tag at a time.

use vstd::prelude::*;

use crate::names::{get_workspace_name, spec_workspace_name};
use crate::wm::WmCommand;

verus! {

/// One tag's borrow record: the owning tag and the container ids borrowed
/// from it onto the currently focused tag.
pub struct BorrowEntry {
    pub tag: String,
    pub ids: Vec<i64>,
}

/// The mathematical state of one output: the focused tag, the previous
/// tag, and the borrowed containers as a map from owning tag to id set.
pub ghost struct TagStateView {
    pub focused: Seq<char>,
    pub prev: Seq<char>,
    pub borrowed: Map<Seq<char>, Set<i64>>,
}

/// Whether some entry of `s` records borrows owned by tag `t`.
pub open spec fn has_tag(s: Seq<BorrowEntry>, t: Seq<char>) -> bool {
    exists|i: int| 0 <= i < s.len() && s[i].tag@ == t
}

/// The position of the entry owned by tag `t`.
pub open spec fn tag_index(s: Seq<BorrowEntry>, t: Seq<char>) -> int {
    choose|i: int| 0 <= i < s.len() && s[i].tag@ == t
}

/// The borrow map described by a sequence of entries.
pub open spec fn borrow_map(s: Seq<BorrowEntry>) -> Map<Seq<char>, Set<i64>> {
    Map::new(|t: Seq<char>| has_tag(s, t), |t: Seq<char>| s[tag_index(s, t)].ids@.to_set())
}

/// Whether no container id is recorded in both entries.
pub open spec fn entries_disjoint(e1: BorrowEntry, e2: BorrowEntry) -> bool {
    forall|a: i64| e1.ids@.contains(a) ==> !e2.ids@.contains(a)
}

/// Well-formed borrow bookkeeping: owning tags are pairwise distinct, no
/// entry lists a container twice, and no container appears under two
/// owners.
pub open spec fn entries_wf(s: Seq<BorrowEntry>) -> bool {
    &&& forall|i: int, j: int|
        0 <= i < j < s.len() ==> (#[trigger] s[i]).tag@ != (#[trigger] s[j]).tag@
    &&& forall|i: int| 0 <= i < s.len() ==> (#[trigger] s[i]).ids@.no_duplicates()
    &&& forall|i: int, j: int|
        0 <= i < j < s.len() ==> entries_disjoint(#[trigger] s[i], #[trigger] s[j])
}

/// With distinct owning tags, the entry found for a tag is the only one.
pub proof fn lemma_tag_index_unique(s: Seq<BorrowEntry>, i: int)
    requires
        entries_wf(s),
        0 <= i < s.len(),
    ensures
        has_tag(s, s[i].tag@),
        tag_index(s, s[i].tag@) == i,
{
    assert(has_tag(s, s[i].tag@));
    let j = tag_index(s, s[i].tag@);
    if j != i {
        if j < i {
            assert(s[j].tag@ != s[i].tag@);
        } else {
            assert(s[i].tag@ != s[j].tag@);
        }
    }
}

/// Replacing the ids of one entry, with ids that stay clear of every
/// other entry, replaces that owner's set in the borrow map.
proof fn lemma_borrow_map_update(s: Seq<BorrowEntry>, k: int, e: BorrowEntry)
    requires
        entries_wf(s),
        0 <= k < s.len(),
        e.tag@ == s[k].tag@,
        e.ids@.no_duplicates(),
        forall|j: int| 0 <= j < s.len() && j != k ==> entries_disjoint(e, #[trigger] s[j]),
    ensures
        entries_wf(s.update(k, e)),
        borrow_map(s.update(k, e)) == borrow_map(s).insert(s[k].tag@, e.ids@.to_set()),
{
    let s2 = s.update(k, e);
    assert forall|i: int, j: int| 0 <= i < j < s2.len() implies entries_disjoint(
        #[trigger] s2[i],
        #[trigger] s2[j],
    ) by {
        if i == k {
            assert(entries_disjoint(e, s[j]));
        } else if j == k {
            assert forall|a: i64| s2[i].ids@.contains(a) implies !s2[j].ids@.contains(a) by {
                assert(entries_disjoint(e, s[i]));
            }
        } else {
            assert(entries_disjoint(s[i], s[j]));
        }
    }
    assert(entries_wf(s2));
    assert forall|t: Seq<char>| has_tag(s2, t) implies has_tag(s, t) by {
        let i = choose|i: int| 0 <= i < s2.len() && s2[i].tag@ == t;
        assert(s[i].tag@ == t);
    }
    assert forall|t: Seq<char>| has_tag(s, t) implies has_tag(s2, t) by {
        let i = choose|i: int| 0 <= i < s.len() && s[i].tag@ == t;
        assert(s2[i].tag@ == t);
    }
    assert forall|t: Seq<char>| has_tag(s2, t) implies borrow_map(s2)[t] == borrow_map(s).insert(
        s[k].tag@,
        e.ids@.to_set(),
    )[t] by {
        let i = tag_index(s2, t);
        assert(0 <= i < s2.len() && s2[i].tag@ == t);
        lemma_tag_index_unique(s2, i);
        lemma_tag_index_unique(s, i);
        if i == k {
            assert(borrow_map(s2)[t] == e.ids@.to_set());
        } else {
            assert(borrow_map(s2)[t] == s[i].ids@.to_set());
            assert(t != s[k].tag@);
        }
    }
    assert(borrow_map(s2) =~= borrow_map(s).insert(s[k].tag@, e.ids@.to_set()));
}

/// Dropping one entry drops exactly that owner from the borrow map.
proof fn lemma_borrow_map_remove(s: Seq<BorrowEntry>, k: int)
    requires
        entries_wf(s),
        0 <= k < s.len(),
    ensures
        entries_wf(s.remove(k)),
        borrow_map(s.remove(k)) == borrow_map(s).remove(s[k].tag@),
{
    let s2 = s.remove(k);
    assert forall|i: int| 0 <= i < s2.len() implies s2[i] == s[if i < k {
        i
    } else {
        i + 1
    }] by {}
    assert(entries_wf(s2));
    assert forall|t: Seq<char>| has_tag(s2, t) implies has_tag(s, t) && t != s[k].tag@ by {
        let i = choose|i: int| 0 <= i < s2.len() && s2[i].tag@ == t;
        let i0: int = if i < k {
            i
        } else {
            i + 1
        };
        assert(s[i0].tag@ == t);
        if i0 != k {
            if i0 < k {
                assert(s[i0].tag@ != s[k].tag@);
            } else {
                assert(s[k].tag@ != s[i0].tag@);
            }
        }
    }
    assert forall|t: Seq<char>| has_tag(s, t) && t != s[k].tag@ implies has_tag(s2, t) by {
        let i = choose|i: int| 0 <= i < s.len() && s[i].tag@ == t;
        let i2: int = if i < k {
            i
        } else {
            i - 1
        };
        assert(s2[i2].tag@ == t);
    }
    assert forall|t: Seq<char>| has_tag(s2, t) implies borrow_map(s2)[t] == borrow_map(s).remove(
        s[k].tag@,
    )[t] by {
        let i = tag_index(s2, t);
        assert(0 <= i < s2.len() && s2[i].tag@ == t);
        lemma_tag_index_unique(s2, i);
        let i0: int = if i < k {
            i
        } else {
            i + 1
        };
        lemma_tag_index_unique(s, i0);
        assert(borrow_map(s2)[t] == s[i0].ids@.to_set());
    }
    assert(borrow_map(s2) =~= borrow_map(s).remove(s[k].tag@));
}

/// Appending an entry for a new owner, with ids clear of every existing
/// entry, adds exactly that owner to the borrow map.
proof fn lemma_borrow_map_push(s: Seq<BorrowEntry>, e: BorrowEntry)
    requires
        entries_wf(s),
        !has_tag(s, e.tag@),
        e.ids@.no_duplicates(),
        forall|j: int| 0 <= j < s.len() ==> entries_disjoint(e, #[trigger] s[j]),
    ensures
        entries_wf(s.push(e)),
        borrow_map(s.push(e)) == borrow_map(s).insert(e.tag@, e.ids@.to_set()),
{
    let s2 = s.push(e);
    assert forall|i: int, j: int| 0 <= i < j < s2.len() implies (#[trigger] s2[i]).tag@ != (
    #[trigger] s2[j]).tag@ by {
        if j == s.len() {
            assert(s2[i] == s[i]);
            assert(has_tag(s, s[i].tag@));
        }
    }
    assert forall|i: int, j: int| 0 <= i < j < s2.len() implies entries_disjoint(
        #[trigger] s2[i],
        #[trigger] s2[j],
    ) by {
        if j == s.len() {
            assert forall|a: i64| s2[i].ids@.contains(a) implies !s2[j].ids@.contains(a) by {
                assert(entries_disjoint(e, s[i]));
            }
        } else {
            assert(entries_disjoint(s[i], s[j]));
        }
    }
    assert(entries_wf(s2));
    assert forall|t: Seq<char>| has_tag(s2, t) implies has_tag(s, t) || t == e.tag@ by {
        let i = choose|i: int| 0 <= i < s2.len() && s2[i].tag@ == t;
        if i < s.len() {
            assert(s[i].tag@ == t);
        }
    }
    assert forall|t: Seq<char>| has_tag(s, t) implies has_tag(s2, t) by {
        let i = choose|i: int| 0 <= i < s.len() && s[i].tag@ == t;
        assert(s2[i].tag@ == t);
    }
    assert(s2[s.len() as int].tag@ == e.tag@);
    assert(has_tag(s2, e.tag@));
    assert forall|t: Seq<char>| has_tag(s2, t) implies borrow_map(s2)[t] == borrow_map(s).insert(
        e.tag@,
        e.ids@.to_set(),
    )[t] by {
        let i = tag_index(s2, t);
        assert(0 <= i < s2.len() && s2[i].tag@ == t);
        lemma_tag_index_unique(s2, i);
        if i == s.len() {
            assert(borrow_map(s2)[t] == e.ids@.to_set());
        } else {
            lemma_tag_index_unique(s, i);
            assert(borrow_map(s2)[t] == s[i].ids@.to_set());
            assert(t != e.tag@);
        }
    }
    assert(borrow_map(s2) =~= borrow_map(s).insert(e.tag@, e.ids@.to_set()));
}

/// Taking one occurrence out of a duplicate-free sequence takes exactly
/// that element out of its set.
proof fn lemma_remove_idx_to_set(s: Seq<i64>, i: int)
    requires
        s.no_duplicates(),
        0 <= i < s.len(),
    ensures
        s.remove(i).no_duplicates(),
        s.remove(i).to_set() == s.to_set().remove(s[i]),
{
    let s2 = s.remove(i);
    assert forall|j: int| 0 <= j < s2.len() implies s2[j] == s[if j < i {
        j
    } else {
        j + 1
    }] by {}
    assert(s2.no_duplicates());
    assert forall|a: i64| s2.to_set().contains(a) implies s.to_set().remove(s[i]).contains(
        a,
    ) by {
        let j = choose|j: int| 0 <= j < s2.len() && s2[j] == a;
        let j0: int = if j < i {
            j
        } else {
            j + 1
        };
        assert(s[j0] == a);
        assert(a != s[i]);
    }
    assert forall|a: i64| s.to_set().remove(s[i]).contains(a) implies s2.to_set().contains(
        a,
    ) by {
        let j = choose|j: int| 0 <= j < s.len() && s[j] == a;
        assert(j != i);
        let j2: int = if j < i {
            j
        } else {
            j - 1
        };
        assert(s2[j2] == a);
    }
    assert(s2.to_set() =~= s.to_set().remove(s[i]));
}

/// The set borrowed from owner `t`, or the empty set where nothing is.
pub open spec fn set_at(m: Map<Seq<char>, Set<i64>>, t: Seq<char>) -> Set<i64> {
    if m.contains_key(t) {
        m[t]
    } else {
        Set::empty()
    }
}

/// Every owner's borrow set with the container `id` taken out.
pub open spec fn strip_id(m: Map<Seq<char>, Set<i64>>, id: i64) -> Map<Seq<char>, Set<i64>> {
    Map::new(|t: Seq<char>| m.contains_key(t), |t: Seq<char>| m[t].remove(id))
}

/// Every owner's borrow set with all of `ids` taken out.
pub open spec fn strip_ids(m: Map<Seq<char>, Set<i64>>, ids: Set<i64>) -> Map<
    Seq<char>,
    Set<i64>,
> {
    Map::new(|t: Seq<char>| m.contains_key(t), |t: Seq<char>| m[t].difference(ids))
}

/// Recording one container as borrowed from `owner`: the id leaves any
/// other owner's set and joins `owner`'s.
pub open spec fn borrow_one_step(
    m: Map<Seq<char>, Set<i64>>,
    owner: Seq<char>,
    id: i64,
) -> Map<Seq<char>, Set<i64>> {
    strip_id(m, id).insert(owner, set_at(m, owner).insert(id))
}

/// Recording a batch of containers as borrowed from `owner`. An empty
/// batch from an unknown owner records nothing at all.
pub open spec fn borrow_step(
    m: Map<Seq<char>, Set<i64>>,
    owner: Seq<char>,
    ids: Set<i64>,
) -> Map<Seq<char>, Set<i64>> {
    if !m.contains_key(owner) && ids =~= Set::<i64>::empty() {
        m
    } else {
        strip_ids(m, ids).insert(owner, set_at(m, owner).union(ids))
    }
}

/// Whether an explicit return of `owner`'s borrows has anything to do.
pub open spec fn can_return(m: Map<Seq<char>, Set<i64>>, owner: Seq<char>) -> bool {
    m.contains_key(owner) && m[owner] != Set::<i64>::empty()
}

/// Returning `owner`'s borrows drops its record; where there is nothing
/// to return, nothing changes.
pub open spec fn return_step(m: Map<Seq<char>, Set<i64>>, owner: Seq<char>) -> Map<
    Seq<char>,
    Set<i64>,
> {
    if can_return(m, owner) {
        m.remove(owner)
    } else {
        m
    }
}

/// Switching to a tag: a no-op on the tag already focused; otherwise all
/// borrows are dropped, the focused tag becomes the previous one and the
/// new tag takes focus.
pub open spec fn switch_step(v: TagStateView, new_tag: Seq<char>) -> TagStateView {
    if new_tag == v.focused {
        v
    } else {
        TagStateView { focused: new_tag, prev: v.focused, borrowed: Map::empty() }
    }
}

/// Toggling back to the previous tag is switching to it; the two tags
/// swap roles.
pub open spec fn toggle_step(v: TagStateView) -> TagStateView {
    switch_step(v, v.prev)
}

/// Bookkeeping for a focus change the window manager performed on its
/// own: focus and previous tag move as in a switch, but the borrow records
/// stay, since no commands are issued.
pub open spec fn observe_step(v: TagStateView, new_tag: Seq<char>) -> TagStateView {
    if new_tag == v.focused {
        v
    } else {
        TagStateView { focused: new_tag, prev: v.focused, borrowed: v.borrowed }
    }
}

/// Recording an empty batch changes nothing, whether or not the owner
/// already has a record.
proof fn lemma_borrow_step_empty(m: Map<Seq<char>, Set<i64>>, owner: Seq<char>)
    ensures
        borrow_step(m, owner, Set::<i64>::empty()) == m,
{
    if m.contains_key(owner) {
        let m2 = strip_ids(m, Set::<i64>::empty()).insert(
            owner,
            set_at(m, owner).union(Set::<i64>::empty()),
        );
        assert forall|t: Seq<char>| #[trigger] m.contains_key(t) implies m2[t] == m[t] by {
            if t == owner {
                assert(set_at(m, owner).union(Set::<i64>::empty()) =~= m[owner]);
            } else {
                assert(m[t].difference(Set::<i64>::empty()) =~= m[t]);
            }
        }
        assert(m2 =~= m);
    }
}

/// Recording one more container after a batch is the same as recording
/// the batch grown by that container.
proof fn lemma_borrow_step_compose(
    m: Map<Seq<char>, Set<i64>>,
    owner: Seq<char>,
    ids: Set<i64>,
    c: i64,
)
    ensures
        borrow_one_step(borrow_step(m, owner, ids), owner, c) == borrow_step(
            m,
            owner,
            ids.insert(c),
        ),
{
    let mid = borrow_step(m, owner, ids);
    let lhs = borrow_one_step(mid, owner, c);
    let rhs = borrow_step(m, owner, ids.insert(c));
    assert(!(ids.insert(c) =~= Set::<i64>::empty())) by {
        assert(ids.insert(c).contains(c));
    }
    if !m.contains_key(owner) && ids =~= Set::<i64>::empty() {
        assert(mid == m);
        assert forall|t: Seq<char>| #[trigger] m.contains_key(t) && t != owner implies m[t].remove(
            c,
        ) == m[t].difference(ids.insert(c)) by {
            assert(m[t].remove(c) =~= m[t].difference(ids.insert(c)));
        }
        assert(set_at(m, owner).insert(c) =~= set_at(m, owner).union(ids.insert(c)));
        assert(lhs =~= rhs);
    } else {
        assert(mid == strip_ids(m, ids).insert(owner, set_at(m, owner).union(ids)));
        assert forall|t: Seq<char>| #[trigger] m.contains_key(t) && t != owner implies mid[t].remove(
            c,
        ) == m[t].difference(ids.insert(c)) by {
            assert(mid[t] == m[t].difference(ids));
            assert(m[t].difference(ids).remove(c) =~= m[t].difference(ids.insert(c)));
        }
        assert(set_at(mid, owner) == set_at(m, owner).union(ids));
        assert(set_at(mid, owner).insert(c) =~= set_at(m, owner).union(ids.insert(c)));
        assert forall|t: Seq<char>| #[trigger] lhs.contains_key(t) implies lhs[t] == rhs[t] by {
            if t != owner {
                assert(m.contains_key(t));
                assert(lhs[t] == mid[t].remove(c));
            }
        }
        assert forall|t: Seq<char>| #[trigger] rhs.contains_key(t) implies lhs.contains_key(t) by {}
        assert(lhs =~= rhs);
    }
}

/// Extending a prefix of a sequence by one element grows its set by that
/// element.
proof fn lemma_prefix_to_set_step(s: Seq<i64>, k: int)
    requires
        0 <= k < s.len(),
    ensures
        s.subrange(0, k + 1).to_set() == s.subrange(0, k).to_set().insert(s[k]),
{
    let p = s.subrange(0, k);
    let q = s.subrange(0, k + 1);
    assert forall|a: i64| q.to_set().contains(a) implies p.to_set().insert(s[k]).contains(a) by {
        let j = choose|j: int| 0 <= j < q.len() && q[j] == a;
        if j < k {
            assert(p[j] == a);
            assert(p.contains(a));
        }
    }
    assert forall|a: i64| p.to_set().insert(s[k]).contains(a) implies q.to_set().contains(a) by {
        if a == s[k] {
            assert(q[k] == a);
            assert(q.contains(a));
        } else {
            let j = choose|j: int| 0 <= j < p.len() && p[j] == a;
            assert(q[j] == a);
            assert(q.contains(a));
        }
    }
    assert(q.to_set() =~= p.to_set().insert(s[k]));
}

/// Whether some owner's borrow set records the container `id`.
pub open spec fn map_has_id(m: Map<Seq<char>, Set<i64>>, id: i64) -> bool {
    exists|t: Seq<char>| #[trigger] m.contains_key(t) && m[t].contains(id)
}

/// Whether `c` moves container `id` to the concrete workspace of tag `t`
/// on the output at `ordinal`.
pub open spec fn is_return_move_of(c: WmCommand, t: Seq<char>, id: i64, ordinal: nat) -> bool {
    &&& c is MoveContainerToWorkspace
    &&& c->container == id
    &&& c->destination@ == spec_workspace_name(t, ordinal)
}

/// Whether `c` moves some container recorded in `m` back to its owner's
/// concrete workspace on the output at `ordinal`.
pub open spec fn is_return_move(c: WmCommand, m: Map<Seq<char>, Set<i64>>, ordinal: nat) -> bool {
    exists|t: Seq<char>, id: i64|
        m.contains_key(t) && #[trigger] m[t].contains(id) && is_return_move_of(c, t, id, ordinal)
}

/// Whether `cmds` returns every container recorded in `m` to its owner's
/// concrete workspace, exactly once each, and does nothing else.
pub open spec fn returns_all_borrowed(
    cmds: Seq<WmCommand>,
    m: Map<Seq<char>, Set<i64>>,
    ordinal: nat,
) -> bool {
    &&& forall|j: int| 0 <= j < cmds.len() ==> is_return_move(#[trigger] cmds[j], m, ordinal)
    &&& forall|t: Seq<char>, id: i64|
        m.contains_key(t) && #[trigger] m[t].contains(id) ==> has_return_move(cmds, t, id, ordinal)
    &&& distinct_containers(cmds)
}

/// Whether the position `(ee, qq)` — container `qq` of entry `ee` — comes
/// before the position `(e, q)` in the entry-by-entry walk of the borrow
/// records.
pub open spec fn pair_processed(e: int, q: int, ee: int, qq: int) -> bool {
    ee < e || (ee == e && qq < q)
}

/// Whether some command of `cmds` moves container `id` to the concrete
/// workspace of tag `t` on the output at `ordinal`.
pub open spec fn has_return_move(
    cmds: Seq<WmCommand>,
    t: Seq<char>,
    id: i64,
    ordinal: nat,
) -> bool {
    exists|j: int| 0 <= j < cmds.len() && is_return_move_of(#[trigger] cmds[j], t, id, ordinal)
}

/// A command that moves a container back keeps doing so after more
/// commands are appended.
proof fn lemma_has_return_move_extend(
    cmds: Seq<WmCommand>,
    ext: Seq<WmCommand>,
    t: Seq<char>,
    id: i64,
    ordinal: nat,
)
    requires
        has_return_move(cmds, t, id, ordinal),
    ensures
        has_return_move(cmds + ext, t, id, ordinal),
{
    let j = choose|j: int|
        0 <= j < cmds.len() && is_return_move_of(#[trigger] cmds[j], t, id, ordinal);
    assert((cmds + ext)[j] == cmds[j]);
    assert(0 <= j < (cmds + ext).len() && is_return_move_of((cmds + ext)[j], t, id, ordinal));
}

/// Whether `c` moves a container from a position before `(e, q)` in the
/// walk of `s` back to its owner's concrete workspace.
pub open spec fn from_processed_position(
    c: WmCommand,
    s: Seq<BorrowEntry>,
    e: int,
    q: int,
    ordinal: nat,
) -> bool {
    exists|ee: int, qq: int|
        #![trigger s[ee].ids@[qq]]
        0 <= ee < s.len() && 0 <= qq < s[ee].ids@.len() && pair_processed(e, q, ee, qq)
            && is_return_move_of(c, s[ee].tag@, s[ee].ids@[qq], ordinal)
}

/// Whether `cmds` holds a return move for every container at a position
/// before `(e, q)` in the walk of `s`.
pub open spec fn covers_processed(
    cmds: Seq<WmCommand>,
    s: Seq<BorrowEntry>,
    e: int,
    q: int,
    ordinal: nat,
) -> bool {
    forall|ee: int, qq: int|
        #![trigger s[ee].ids@[qq]]
        0 <= ee < s.len() && 0 <= qq < s[ee].ids@.len() && pair_processed(e, q, ee, qq)
            ==> has_return_move(cmds, s[ee].tag@, s[ee].ids@[qq], ordinal)
}

/// Whether every command of `cmds` is a move of some container at a
/// position before `(e, q)` in the walk of `s`.
pub open spec fn drawn_from_processed(
    cmds: Seq<WmCommand>,
    s: Seq<BorrowEntry>,
    e: int,
    q: int,
    ordinal: nat,
) -> bool {
    forall|j: int|
        0 <= j < cmds.len() ==> from_processed_position(#[trigger] cmds[j], s, e, q, ordinal)
}

/// Whether no two commands move the same container.
pub open spec fn distinct_containers(cmds: Seq<WmCommand>) -> bool {
    forall|j1: int, j2: int|
        0 <= j1 < j2 < cmds.len() ==> (#[trigger] cmds[j1])->container != (
        #[trigger] cmds[j2])->container
}

/// Appending the move block of entry `e` keeps every earlier container
/// covered and covers entry `e` itself.
proof fn lemma_append_block_covers(
    cmds: Seq<WmCommand>,
    block: Seq<WmCommand>,
    s: Seq<BorrowEntry>,
    e: int,
    ordinal: nat,
)
    requires
        0 <= e < s.len(),
        block.len() == s[e].ids@.len(),
        forall|q: int|
            0 <= q < block.len() ==> is_return_move_of(
                #[trigger] block[q],
                s[e].tag@,
                s[e].ids@[q],
                ordinal,
            ),
        covers_processed(cmds, s, e, 0, ordinal),
    ensures
        covers_processed(cmds + block, s, e + 1, 0, ordinal),
{
    let n = cmds.len() as int;
    assert forall|ee: int, qq: int|
        #![trigger s[ee].ids@[qq]]
        0 <= ee < s.len() && 0 <= qq < s[ee].ids@.len() && pair_processed(e + 1, 0, ee, qq)
        implies has_return_move(cmds + block, s[ee].tag@, s[ee].ids@[qq], ordinal) by {
        if ee == e {
            assert((cmds + block)[n + qq] == block[qq]);
            assert(0 <= n + qq < (cmds + block).len() && is_return_move_of(
                (cmds + block)[n + qq],
                s[ee].tag@,
                s[ee].ids@[qq],
                ordinal,
            ));
        } else {
            assert(pair_processed(e, 0, ee, qq));
            assert(has_return_move(cmds, s[ee].tag@, s[ee].ids@[qq], ordinal));
            lemma_has_return_move_extend(cmds, block, s[ee].tag@, s[ee].ids@[qq], ordinal);
        }
    }
}

/// Appending the move block of entry `e` keeps every command drawn from
/// a position the walk has passed.
proof fn lemma_append_block_drawn(
    cmds: Seq<WmCommand>,
    block: Seq<WmCommand>,
    s: Seq<BorrowEntry>,
    e: int,
    ordinal: nat,
)
    requires
        0 <= e < s.len(),
        block.len() == s[e].ids@.len(),
        forall|q: int|
            0 <= q < block.len() ==> is_return_move_of(
                #[trigger] block[q],
                s[e].tag@,
                s[e].ids@[q],
                ordinal,
            ),
        drawn_from_processed(cmds, s, e, 0, ordinal),
    ensures
        drawn_from_processed(cmds + block, s, e + 1, 0, ordinal),
{
    let n = cmds.len() as int;
    assert forall|j: int|
        #![trigger (cmds + block)[j]]
        0 <= j < (cmds + block).len() implies from_processed_position(
        (cmds + block)[j],
        s,
        e + 1,
        0,
        ordinal,
    ) by {
        if j < n {
            assert((cmds + block)[j] == cmds[j]);
            assert(from_processed_position(cmds[j], s, e, 0, ordinal));
            let (ee, qq) = choose|ee: int, qq: int|
                #![trigger s[ee].ids@[qq]]
                0 <= ee < s.len() && 0 <= qq < s[ee].ids@.len() && pair_processed(e, 0, ee, qq)
                    && is_return_move_of(cmds[j], s[ee].tag@, s[ee].ids@[qq], ordinal);
            assert(0 <= ee < s.len() && 0 <= qq < s[ee].ids@.len() && pair_processed(
                e + 1,
                0,
                ee,
                qq,
            ) && is_return_move_of((cmds + block)[j], s[ee].tag@, s[ee].ids@[qq], ordinal));
        } else {
            assert((cmds + block)[j] == block[j - n]);
            assert(0 <= e < s.len() && 0 <= j - n < s[e].ids@.len() && pair_processed(
                e + 1,
                0,
                e,
                j - n,
            ) && is_return_move_of((cmds + block)[j], s[e].tag@, s[e].ids@[j - n], ordinal));
        }
    }
}

/// Appending the move block of entry `e` never repeats a container: the
/// block's ids are duplicate-free and disjoint from every earlier entry.
proof fn lemma_append_block_distinct(
    cmds: Seq<WmCommand>,
    block: Seq<WmCommand>,
    s: Seq<BorrowEntry>,
    e: int,
    ordinal: nat,
)
    requires
        entries_wf(s),
        0 <= e < s.len(),
        block.len() == s[e].ids@.len(),
        forall|q: int|
            0 <= q < block.len() ==> is_return_move_of(
                #[trigger] block[q],
                s[e].tag@,
                s[e].ids@[q],
                ordinal,
            ),
        drawn_from_processed(cmds, s, e, 0, ordinal),
        distinct_containers(cmds),
    ensures
        distinct_containers(cmds + block),
{
    let n = cmds.len() as int;
    assert forall|j1: int, j2: int| 0 <= j1 < j2 < (cmds + block).len() implies (
    #[trigger] (cmds + block)[j1])->container != (#[trigger] (cmds + block)[j2])->container by {
        if j2 < n {
            assert((cmds + block)[j1] == cmds[j1] && (cmds + block)[j2] == cmds[j2]);
        } else if j1 >= n {
            assert((cmds + block)[j1] == block[j1 - n] && (cmds + block)[j2] == block[j2 - n]);
            assert(is_return_move_of(block[j1 - n], s[e].tag@, s[e].ids@[j1 - n], ordinal));
            assert(is_return_move_of(block[j2 - n], s[e].tag@, s[e].ids@[j2 - n], ordinal));
            assert(s[e].ids@.no_duplicates());
        } else {
            assert((cmds + block)[j1] == cmds[j1]);
            assert((cmds + block)[j2] == block[j2 - n]);
            let id2 = s[e].ids@[j2 - n];
            assert(from_processed_position(cmds[j1], s, e, 0, ordinal));
            let (ee, qq) = choose|ee: int, qq: int|
                #![trigger s[ee].ids@[qq]]
                0 <= ee < s.len() && 0 <= qq < s[ee].ids@.len() && pair_processed(e, 0, ee, qq)
                    && is_return_move_of(cmds[j1], s[ee].tag@, s[ee].ids@[qq], ordinal);
            assert(ee < e);
            assert(entries_disjoint(s[ee], s[e]));
            assert(s[ee].ids@.contains(s[ee].ids@[qq]));
            assert(s[e].ids@.contains(id2));
            assert(s[ee].ids@[qq] != id2);
        }
    }
}

/// Commands that walk all entries of a well-formed record list return
/// all of its borrows.
proof fn lemma_walk_returns_all(cmds: Seq<WmCommand>, s: Seq<BorrowEntry>, ordinal: nat)
    requires
        entries_wf(s),
        covers_processed(cmds, s, s.len() as int, 0, ordinal),
        drawn_from_processed(cmds, s, s.len() as int, 0, ordinal),
        distinct_containers(cmds),
    ensures
        returns_all_borrowed(cmds, borrow_map(s), ordinal),
{
    let m = borrow_map(s);
    assert forall|j: int| 0 <= j < cmds.len() implies is_return_move(
        #[trigger] cmds[j],
        m,
        ordinal,
    ) by {
        assert(from_processed_position(cmds[j], s, s.len() as int, 0, ordinal));
        let (ee, qq) = choose|ee: int, qq: int|
            #![trigger s[ee].ids@[qq]]
            0 <= ee < s.len() && 0 <= qq < s[ee].ids@.len() && pair_processed(
                s.len() as int,
                0,
                ee,
                qq,
            ) && is_return_move_of(cmds[j], s[ee].tag@, s[ee].ids@[qq], ordinal);
        lemma_tag_index_unique(s, ee);
        assert(m.contains_key(s[ee].tag@));
        assert(s[ee].ids@.contains(s[ee].ids@[qq]));
        assert(m[s[ee].tag@].contains(s[ee].ids@[qq]));
    }
    assert forall|t: Seq<char>, id: i64|
        m.contains_key(t) && #[trigger] m[t].contains(id) implies has_return_move(
        cmds,
        t,
        id,
        ordinal,
    ) by {
        let i = tag_index(s, t);
        assert(0 <= i < s.len() && s[i].tag@ == t);
        assert(m[t] == s[i].ids@.to_set());
        assert(s[i].ids@.contains(id));
        let qq = choose|qq: int| 0 <= qq < s[i].ids@.len() && s[i].ids@[qq] == id;
        assert(pair_processed(s.len() as int, 0, i, qq));
        assert(has_return_move(cmds, s[i].tag@, s[i].ids@[qq], ordinal));
    }
}

/// Whether `c` switches to the concrete workspace named `ws`.
pub open spec fn is_switch_to(c: WmCommand, ws: Seq<char>) -> bool {
    c is SwitchToWorkspace && c->workspace@ == ws
}

/// The tag state machine of one output.
pub struct SwaylessOutput {
    /// The output's name as the window manager reports it.
    pub name: String,
    /// The logical tag currently visible on this output.
    pub focused_tag: String,
    /// The logical tag visible just before the current one.
    pub prev_tag: String,
    /// The borrow records, one per owning tag.
    pub borrowed_tags: Vec<BorrowEntry>,
}

impl View for SwaylessOutput {
    type V = TagStateView;

    open spec fn view(&self) -> TagStateView {
        TagStateView {
            focused: self.focused_tag@,
            prev: self.prev_tag@,
            borrowed: borrow_map(self.borrowed_tags@),
        }
    }
}

impl SwaylessOutput {
    /// Well-formed borrow bookkeeping.
    pub open spec fn wf(&self) -> bool {
        entries_wf(self.borrowed_tags@)
    }

    /// A fresh output state: the initial tag is focused, it is its own
    /// previous tag, and nothing is borrowed.
    pub fn new(name: &str, initial_tag: &str) -> (r: Self)
        ensures
            r.wf(),
            r.name@ == name@,
            r@.focused == initial_tag@,
            r@.prev == initial_tag@,
            r@.borrowed == Map::<Seq<char>, Set<i64>>::empty(),
    {
        let r = SwaylessOutput {
            name: name.to_owned(),
            focused_tag: initial_tag.to_owned(),
            prev_tag: initial_tag.to_owned(),
            borrowed_tags: Vec::new(),
        };
        proof {
            assert(r@.borrowed =~= Map::<Seq<char>, Set<i64>>::empty());
        }
        r
    }

    /// The position of the borrow entry owned by `tag`, if any.
    fn find_entry(&self, tag: &str) -> (r: Option<usize>)
        ensures
            match r {
                Some(i) => i < self.borrowed_tags@.len() && self.borrowed_tags@[i as int].tag@
                    == tag@,
                None => !has_tag(self.borrowed_tags@, tag@),
            },
    {
        let owned = tag.to_owned();
        let mut i: usize = 0;
        while i < self.borrowed_tags.len()
            invariant
                i <= self.borrowed_tags@.len(),
                owned@ == tag@,
                forall|j: int| 0 <= j < i ==> (#[trigger] self.borrowed_tags@[j]).tag@ != tag@,
            decreases self.borrowed_tags@.len() - i,
        {
            if self.borrowed_tags[i].tag == owned {
                return Some(i);
            }
            i = i + 1;
        }
        None
    }

    /// Whether containers are currently recorded as borrowed from `tag`.
    pub fn is_borrowing_tag(&self, tag: &str) -> (r: bool)
        ensures
            r == self@.borrowed.contains_key(tag@),
    {
        self.find_entry(tag).is_some()
    }

    /// Strikes `borrowed_container` from whichever owner's borrow set
    /// records it, and reports whether any did.
    pub fn unborrow_container(&mut self, borrowed_container: i64) -> (r: bool)
        requires
            old(self).wf(),
        ensures
            final(self).wf(),
            final(self).name == old(self).name,
            final(self).focused_tag == old(self).focused_tag,
            final(self).prev_tag == old(self).prev_tag,
            final(self)@.borrowed == strip_id(old(self)@.borrowed, borrowed_container),
            r == map_has_id(old(self)@.borrowed, borrowed_container),
    {
        let ghost m0 = self@.borrowed;
        let ghost s0 = self.borrowed_tags@;
        let mut k: usize = 0;
        while k < self.borrowed_tags.len()
            invariant
                old(self).wf(),
                self == old(self),
                m0 == old(self)@.borrowed,
                s0 == old(self).borrowed_tags@,
                k <= s0.len(),
                forall|e: int|
                    0 <= e < k ==> !(#[trigger] s0[e]).ids@.contains(borrowed_container),
            decreases s0.len() - k,
        {
            if let Some(idx) = vec_find_i64(&self.borrowed_tags[k].ids, borrowed_container) {
                let mut e = self.borrowed_tags.remove(k);
                let ghost old_ids = e.ids@;
                e.ids.remove(idx);
                proof {
                    lemma_remove_idx_to_set(old_ids, idx as int);
                }
                let ghost e_new = e;
                self.borrowed_tags.insert(k, e);
                proof {
                    let t_k = s0[k as int].tag@;
                    lemma_tag_index_unique(s0, k as int);
                    assert(old_ids == s0[k as int].ids@);
                    assert(old_ids[idx as int] == borrowed_container);
                    assert(old_ids.contains(borrowed_container));
                    assert(m0.contains_key(t_k));
                    assert(m0[t_k] == old_ids.to_set());
                    assert(m0[t_k].contains(borrowed_container));
                    assert(map_has_id(m0, borrowed_container));
                    assert(self.borrowed_tags@ =~= s0.update(k as int, e_new));
                    lemma_borrow_map_update(s0, k as int, e_new);
                    assert(e_new.ids@.to_set() == m0[t_k].remove(borrowed_container));
                    assert forall|t: Seq<char>|
                        #[trigger] m0.contains_key(t) && t != t_k implies m0[t].remove(
                        borrowed_container,
                    ) == m0[t] by {
                        let i = tag_index(s0, t);
                        assert(0 <= i < s0.len() && s0[i].tag@ == t);
                        assert(i != k as int);
                        if i < k as int {
                            assert(entries_disjoint(s0[i], s0[k as int]));
                        } else {
                            assert(entries_disjoint(s0[k as int], s0[i]));
                        }
                        assert(!s0[i].ids@.contains(borrowed_container));
                        assert(!m0[t].contains(borrowed_container));
                        assert(m0[t].remove(borrowed_container) =~= m0[t]);
                    }
                    assert(self@.borrowed =~= strip_id(m0, borrowed_container));
                }
                return true;
            }
            k = k + 1;
        }
        proof {
            assert forall|t: Seq<char>| #[trigger] m0.contains_key(t) implies m0[t].remove(
                borrowed_container,
            ) == m0[t] && !m0[t].contains(borrowed_container) by {
                let i = tag_index(s0, t);
                assert(0 <= i < s0.len() && s0[i].tag@ == t);
                assert(!s0[i].ids@.contains(borrowed_container));
                assert(!m0[t].contains(borrowed_container));
                assert(m0[t].remove(borrowed_container) =~= m0[t]);
            }
            assert(self@.borrowed =~= strip_id(m0, borrowed_container));
            assert(!map_has_id(m0, borrowed_container));
        }
        false
    }

    /// Records `container` as borrowed from `tag`: the id leaves any other
    /// owner's set and joins `tag`'s. Reports whether the id was not yet
    /// recorded under `tag`.
    pub fn borrow_tag_container(&mut self, tag: &str, container: i64) -> (r: bool)
        requires
            old(self).wf(),
        ensures
            final(self).wf(),
            final(self).name == old(self).name,
            final(self).focused_tag == old(self).focused_tag,
            final(self).prev_tag == old(self).prev_tag,
            final(self)@.borrowed == borrow_one_step(old(self)@.borrowed, tag@, container),
            r == !set_at(old(self)@.borrowed, tag@).contains(container),
    {
        let ghost m0 = self@.borrowed;
        let r = match self.find_entry(tag) {
            Some(i) => {
                proof {
                    lemma_tag_index_unique(self.borrowed_tags@, i as int);
                }
                vec_find_i64(&self.borrowed_tags[i].ids, container).is_none()
            },
            None => true,
        };
        self.unborrow_container(container);
        let ghost m1 = self@.borrowed;
        let ghost s1 = self.borrowed_tags@;
        match self.find_entry(tag) {
            Some(i) => {
                let mut e = self.borrowed_tags.remove(i);
                let ghost old_ids = e.ids@;
                e.ids.push(container);
                let ghost e_new = e;
                self.borrowed_tags.insert(i, e);
                proof {
                    lemma_tag_index_unique(s1, i as int);
                    assert(m1.contains_key(tag@));
                    assert(m0.contains_key(tag@));
                    assert(m1[tag@] == m0[tag@].remove(container));
                    assert(!m1[tag@].contains(container));
                    assert(old_ids == s1[i as int].ids@);
                    assert(m1[tag@] == old_ids.to_set());
                    assert(!old_ids.contains(container)) by {
                        if old_ids.contains(container) {
                            assert(old_ids.to_set().contains(container));
                        }
                    }
                    assert(e_new.ids@ == old_ids.push(container));
                    assert(e_new.ids@.no_duplicates()) by {
                        assert forall|a: int, b: int|
                            0 <= a < e_new.ids@.len() && 0 <= b < e_new.ids@.len() && a != b
                            implies e_new.ids@[a] != e_new.ids@[b] by {
                            if b == old_ids.len() {
                                assert(old_ids[a] != container) by {
                                    if old_ids[a] == container {
                                        assert(old_ids.contains(container));
                                    }
                                }
                            } else if a == old_ids.len() {
                                assert(old_ids[b] != container) by {
                                    if old_ids[b] == container {
                                        assert(old_ids.contains(container));
                                    }
                                }
                            }
                        }
                    }
                    assert(e_new.ids@.to_set() =~= old_ids.to_set().insert(container)) by {
                        assert forall|a: i64| e_new.ids@.to_set().contains(a)
                            implies old_ids.to_set().insert(container).contains(a) by {
                            let j = choose|j: int|
                                0 <= j < e_new.ids@.len() && e_new.ids@[j] == a;
                            if j < old_ids.len() {
                                assert(old_ids[j] == a);
                                assert(old_ids.contains(a));
                            }
                        }
                        assert forall|a: i64| old_ids.to_set().insert(container).contains(a)
                            implies e_new.ids@.to_set().contains(a) by {
                            if a == container {
                                assert(e_new.ids@[old_ids.len() as int] == a);
                                assert(e_new.ids@.contains(a));
                            } else {
                                assert(old_ids.contains(a));
                                let j = choose|j: int| 0 <= j < old_ids.len() && old_ids[j] == a;
                                assert(e_new.ids@[j] == a);
                                assert(e_new.ids@.contains(a));
                            }
                        }
                    }
                    assert forall|j: int| 0 <= j < s1.len() && j != i as int
                        implies entries_disjoint(e_new, #[trigger] s1[j]) by {
                        assert forall|a: i64| e_new.ids@.contains(a) implies !s1[j].ids@.contains(
                            a,
                        ) by {
                            let t_j = s1[j].tag@;
                            lemma_tag_index_unique(s1, j);
                            if a == container {
                                assert(m1[t_j] == s1[j].ids@.to_set());
                                assert(!m1[t_j].contains(container));
                            } else {
                                assert(old_ids.contains(a));
                                if j < i as int {
                                    assert(entries_disjoint(s1[j], s1[i as int]));
                                } else {
                                    assert(entries_disjoint(s1[i as int], s1[j]));
                                }
                            }
                        }
                    }
                    assert(self.borrowed_tags@ =~= s1.update(i as int, e_new));
                    lemma_borrow_map_update(s1, i as int, e_new);
                    assert(e_new.ids@.to_set() =~= set_at(m0, tag@).insert(container));
                    assert(self@.borrowed =~= borrow_one_step(m0, tag@, container));
                }
            },
            None => {
                let mut ids: Vec<i64> = Vec::new();
                ids.push(container);
                let e = BorrowEntry { tag: tag.to_owned(), ids };
                let ghost e_new = e;
                self.borrowed_tags.push(e);
                proof {
                    assert(e_new.ids@ =~= seq![container]);
                    assert(e_new.ids@.len() == 1 && e_new.ids@[0] == container);
                    assert(e_new.ids@.no_duplicates());
                    assert forall|a: i64| e_new.ids@.contains(a) implies a == container by {
                        let jj = choose|jj: int| 0 <= jj < e_new.ids@.len() && e_new.ids@[jj] == a;
                        assert(jj == 0);
                    }
                    assert(e_new.ids@.to_set() =~= Set::<i64>::empty().insert(container)) by {
                        assert(e_new.ids@.contains(container));
                    }
                    assert forall|j: int| 0 <= j < s1.len() implies entries_disjoint(
                        e_new,
                        #[trigger] s1[j],
                    ) by {
                        assert forall|a: i64| e_new.ids@.contains(a) implies !s1[j].ids@.contains(
                            a,
                        ) by {
                            let t_j = s1[j].tag@;
                            lemma_tag_index_unique(s1, j);
                            assert(a == container);
                            assert(m1.contains_key(t_j));
                            assert(m0.contains_key(t_j));
                            assert(m1[t_j] == m0[t_j].remove(container));
                            assert(m1[t_j] == s1[j].ids@.to_set());
                            assert(!m1[t_j].contains(container));
                        }
                    }
                    lemma_borrow_map_push(s1, e_new);
                    assert(!has_tag(s1, tag@));
                    assert(!m1.contains_key(tag@));
                    assert(m1.contains_key(tag@) == m0.contains_key(tag@));
                    assert(set_at(m0, tag@) =~= Set::<i64>::empty());
                    assert(self@.borrowed =~= borrow_one_step(m0, tag@, container));
                }
            },
        }
        r
    }

    /// Records a whole batch of containers as borrowed from `tag`, with
    /// set semantics: ids already recorded under `tag` stay recorded
    /// once, and an empty batch from an owner without a record changes
    /// nothing.
    pub fn borrow_tag_containers(&mut self, tag: &str, containers: &Vec<i64>)
        requires
            old(self).wf(),
        ensures
            final(self).wf(),
            final(self).name == old(self).name,
            final(self).focused_tag == old(self).focused_tag,
            final(self).prev_tag == old(self).prev_tag,
            final(self)@.borrowed == borrow_step(
                old(self)@.borrowed,
                tag@,
                containers@.to_set(),
            ),
    {
        let ghost m0 = self@.borrowed;
        proof {
            assert(containers@.subrange(0, 0).to_set() =~= Set::<i64>::empty());
            lemma_borrow_step_empty(m0, tag@);
        }
        let mut k: usize = 0;
        while k < containers.len()
            invariant
                self.wf(),
                self.name == old(self).name,
                self.focused_tag == old(self).focused_tag,
                self.prev_tag == old(self).prev_tag,
                m0 == old(self)@.borrowed,
                k <= containers@.len(),
                self@.borrowed == borrow_step(m0, tag@, containers@.subrange(0, k as int).to_set()),
            decreases containers@.len() - k,
        {
            let c = containers[k];
            self.borrow_tag_container(tag, c);
            proof {
                lemma_borrow_step_compose(
                    m0,
                    tag@,
                    containers@.subrange(0, k as int).to_set(),
                    c,
                );
                lemma_prefix_to_set_step(containers@, k as int);
            }
            k = k + 1;
        }
        proof {
            assert(containers@.subrange(0, containers@.len() as int) =~= containers@);
        }
    }

    /// Gives `borrowed_tag`'s containers back: where its record is absent
    /// or empty, reports `false` and does nothing; otherwise drops the
    /// record, reports `true`, and hands back one move command per
    /// container, each to the owner's concrete workspace on the output at
    /// `output_index`.
    pub fn return_containers(&mut self, borrowed_tag: &str, output_index: usize) -> (r: (
        bool,
        Vec<WmCommand>,
    ))
        requires
            old(self).wf(),
            output_index < usize::MAX,
        ensures
            final(self).wf(),
            final(self).name == old(self).name,
            final(self).focused_tag == old(self).focused_tag,
            final(self).prev_tag == old(self).prev_tag,
            r.0 == can_return(old(self)@.borrowed, borrowed_tag@),
            final(self)@.borrowed == return_step(old(self)@.borrowed, borrowed_tag@),
            !r.0 ==> *final(self) == *old(self) && r.1@ == Seq::<WmCommand>::empty(),
            r.0 ==> returns_all_borrowed(
                r.1@,
                Map::<Seq<char>, Set<i64>>::empty().insert(
                    borrowed_tag@,
                    set_at(old(self)@.borrowed, borrowed_tag@),
                ),
                output_index as nat,
            ),
    {
        let ghost m0 = self@.borrowed;
        let ghost s0 = self.borrowed_tags@;
        let ghost t0 = borrowed_tag@;
        match self.find_entry(borrowed_tag) {
            None => {
                proof {
                    assert(!m0.contains_key(t0));
                }
                (false, Vec::new())
            },
            Some(i) => {
                proof {
                    lemma_tag_index_unique(s0, i as int);
                    assert(m0.contains_key(t0));
                    assert(m0[t0] == s0[i as int].ids@.to_set());
                }
                let ghost ids0 = s0[i as int].ids@;
                if self.borrowed_tags[i].ids.len() == 0 {
                    proof {
                        assert(ids0.to_set() =~= Set::<i64>::empty());
                    }
                    return (false, Vec::new());
                }
                proof {
                    assert(ids0.to_set().contains(ids0[0]));
                    assert(can_return(m0, t0));
                }
                let ws = get_workspace_name(borrowed_tag, output_index);
                let mut cmds: Vec<WmCommand> = Vec::new();
                let mut k: usize = 0;
                while k < self.borrowed_tags[i].ids.len()
                    invariant
                        self == old(self),
                        old(self).wf(),
                        i < self.borrowed_tags@.len(),
                        s0 == self.borrowed_tags@,
                        ids0 == s0[i as int].ids@,
                        ws@ == spec_workspace_name(t0, output_index as nat),
                        k <= ids0.len(),
                        cmds@.len() == k,
                        forall|j: int|
                            0 <= j < k ==> (#[trigger] cmds@[j]) is MoveContainerToWorkspace
                                && cmds@[j]->container == ids0[j] && cmds@[j]->destination@
                                == ws@,
                    decreases ids0.len() - k,
                {
                    let id = self.borrowed_tags[i].ids[k];
                    cmds.push(
                        WmCommand::MoveContainerToWorkspace {
                            container: id,
                            destination: ws.clone(),
                        },
                    );
                    k = k + 1;
                }
                self.borrowed_tags.remove(i);
                proof {
                    lemma_borrow_map_remove(s0, i as int);
                    assert(self@.borrowed == return_step(m0, t0));
                    let sm = Map::<Seq<char>, Set<i64>>::empty().insert(t0, set_at(m0, t0));
                    assert(entries_wf(s0));
                    assert(ids0.no_duplicates());
                    assert forall|j: int| 0 <= j < cmds@.len() implies is_return_move(
                        #[trigger] cmds@[j],
                        sm,
                        output_index as nat,
                    ) by {
                        assert(ids0.contains(ids0[j]));
                        assert(sm[t0].contains(ids0[j]));
                        assert(is_return_move_of(cmds@[j], t0, ids0[j], output_index as nat));
                    }
                    assert forall|t: Seq<char>, id: i64|
                        sm.contains_key(t) && #[trigger] sm[t].contains(id) implies has_return_move(
                        cmds@,
                        t,
                        id,
                        output_index as nat,
                    ) by {
                        assert(t == t0);
                        assert(ids0.to_set().contains(id));
                        let j = choose|j: int| 0 <= j < ids0.len() && ids0[j] == id;
                        assert(0 <= j < cmds@.len() && is_return_move_of(
                            cmds@[j],
                            t,
                            id,
                            output_index as nat,
                        ));
                    }
                    assert(distinct_containers(cmds@));
                    assert(returns_all_borrowed(cmds@, sm, output_index as nat));
                }
                (true, cmds)
            },
        }
    }

    /// Switches this output to `new_tag`. A switch to the tag already
    /// focused is a no-op that issues nothing. Otherwise every borrowed
    /// container is first moved back to its owning tag, the borrow
    /// records are dropped, and the final command switches to the new
    /// tag's concrete workspace on the output at `output_index`.
    pub fn change_focused_tag(&mut self, new_tag: &str, output_index: usize) -> (cmds: Vec<
        WmCommand,
    >)
        requires
            old(self).wf(),
            output_index < usize::MAX,
        ensures
            final(self).wf(),
            final(self).name == old(self).name,
            final(self)@ == switch_step(old(self)@, new_tag@),
            new_tag@ == old(self)@.focused ==> *final(self) == *old(self) && cmds@ == Seq::<
                WmCommand,
            >::empty(),
            new_tag@ != old(self)@.focused ==> cmds@.len() >= 1 && is_switch_to(
                cmds@.last(),
                spec_workspace_name(new_tag@, output_index as nat),
            ) && returns_all_borrowed(
                cmds@.drop_last(),
                old(self)@.borrowed,
                output_index as nat,
            ),
    {
        let nt = new_tag.to_owned();
        if self.focused_tag == nt {
            return Vec::new();
        }
        let mut cmds = self.return_all_containers(output_index);
        let ghost moved_back = cmds@;
        let ws = get_workspace_name(new_tag, output_index);
        cmds.push(WmCommand::SwitchToWorkspace { workspace: ws });
        self.prev_tag = self.focused_tag.clone();
        self.focused_tag = nt;
        self.borrowed_tags = Vec::new();
        proof {
            assert(cmds@.drop_last() =~= moved_back);
            assert(cmds@.last() is SwitchToWorkspace);
            assert(self@.borrowed =~= Map::<Seq<char>, Set<i64>>::empty());
        }
        cmds
    }

    /// Toggles back to the previous tag: the same return-all-and-switch
    /// sequence as an ordinary switch, with the focused and previous tag
    /// swapping roles. When the two tags coincide it is a no-op.
    pub fn alt_tab(&mut self, output_index: usize) -> (cmds: Vec<WmCommand>)
        requires
            old(self).wf(),
            output_index < usize::MAX,
        ensures
            final(self).wf(),
            final(self).name == old(self).name,
            final(self)@ == toggle_step(old(self)@),
            old(self)@.prev == old(self)@.focused ==> *final(self) == *old(self) && cmds@
                == Seq::<WmCommand>::empty(),
            old(self)@.prev != old(self)@.focused ==> cmds@.len() >= 1 && is_switch_to(
                cmds@.last(),
                spec_workspace_name(old(self)@.prev, output_index as nat),
            ) && returns_all_borrowed(
                cmds@.drop_last(),
                old(self)@.borrowed,
                output_index as nat,
            ),
    {
        let prev = self.prev_tag.clone();
        self.change_focused_tag(prev.as_str(), output_index)
    }

    /// Bookkeeping for a focus change the window manager performed on
    /// its own: the focused and previous tag move as in a switch, the
    /// borrow records stay, and no command is issued, since the switch
    /// already happened.
    pub fn observe_focused_tag(&mut self, new_tag: &str)
        requires
            old(self).wf(),
        ensures
            final(self).wf(),
            final(self).name == old(self).name,
            final(self)@ == observe_step(old(self)@, new_tag@),
    {
        let nt = new_tag.to_owned();
        if self.focused_tag == nt {
            return ;
        }
        self.prev_tag = self.focused_tag.clone();
        self.focused_tag = nt;
    }

    /// One move command per borrowed container, each back to its owning
    /// tag's concrete workspace on the output at `output_index`. The
    /// borrow records themselves are left alone.
    fn return_all_containers(&self, output_index: usize) -> (cmds: Vec<WmCommand>)
        requires
            self.wf(),
            output_index < usize::MAX,
        ensures
            returns_all_borrowed(cmds@, self@.borrowed, output_index as nat),
    {
        let ghost s = self.borrowed_tags@;
        let ghost ord = output_index as nat;
        let mut cmds: Vec<WmCommand> = Vec::new();
        let mut e: usize = 0;
        while e < self.borrowed_tags.len()
            invariant
                self.wf(),
                s == self.borrowed_tags@,
                ord == output_index as nat,
                output_index < usize::MAX,
                e <= s.len(),
                covers_processed(cmds@, s, e as int, 0, ord),
                drawn_from_processed(cmds@, s, e as int, 0, ord),
                distinct_containers(cmds@),
            decreases s.len() - e,
        {
            let ws = get_workspace_name(self.borrowed_tags[e].tag.as_str(), output_index);
            let mut block = moves_for_ids(&self.borrowed_tags[e].ids, &ws);
            let ghost old_cmds = cmds@;
            let ghost block0 = block@;
            cmds.append(&mut block);
            proof {
                assert forall|q: int| 0 <= q < block0.len() implies is_return_move_of(
                    #[trigger] block0[q],
                    s[e as int].tag@,
                    s[e as int].ids@[q],
                    ord,
                ) by {}
                lemma_append_block_covers(old_cmds, block0, s, e as int, ord);
                lemma_append_block_drawn(old_cmds, block0, s, e as int, ord);
                lemma_append_block_distinct(old_cmds, block0, s, e as int, ord);
            }
            e = e + 1;
        }
        proof {
            lemma_walk_returns_all(cmds@, s, ord);
        }
        cmds
    }
}

/// A second switch to the same tag changes nothing: switching is
/// idempotent. Together with the contract of `change_focused_tag` — which
/// issues no command when the target tag is already focused — the second
/// of two equal switches issues nothing and leaves the borrow records as
/// they are.
pub proof fn lemma_switch_idempotent(v: TagStateView, new_tag: Seq<char>)
    ensures
        switch_step(v, new_tag).focused == new_tag,
        switch_step(switch_step(v, new_tag), new_tag) == switch_step(v, new_tag),
{
}

/// Borrowing a non-empty batch and then returning it leaves no record
/// for the owner, the return reports work done, and a further return
/// reports nothing to do.
pub proof fn lemma_borrow_then_return(
    m: Map<Seq<char>, Set<i64>>,
    owner: Seq<char>,
    ids: Set<i64>,
)
    requires
        !(ids =~= Set::<i64>::empty()),
    ensures
        ({
            let m1 = borrow_step(m, owner, ids);
            let m2 = return_step(m1, owner);
            &&& can_return(m1, owner)
            &&& !m2.contains_key(owner)
            &&& !can_return(m2, owner)
            &&& return_step(m2, owner) == m2
        }),
{
    let m1 = borrow_step(m, owner, ids);
    let some_id = choose|a: i64| ids.contains(a);
    assert(ids.contains(some_id));
    assert(m1.contains_key(owner));
    assert(m1[owner] == set_at(m, owner).union(ids));
    assert(m1[owner].contains(some_id));
    assert(!(m1[owner] =~= Set::<i64>::empty()));
    assert(m1[owner] != Set::<i64>::empty());
    let m2 = return_step(m1, owner);
    assert(m2 == m1.remove(owner));
    assert(!m2.contains_key(owner));
}

/// Recording the same batch from the same owner a second time changes
/// nothing: borrowing has set semantics.
pub proof fn lemma_borrow_idempotent(
    m: Map<Seq<char>, Set<i64>>,
    owner: Seq<char>,
    ids: Set<i64>,
)
    ensures
        borrow_step(borrow_step(m, owner, ids), owner, ids) == borrow_step(m, owner, ids),
{
    let m1 = borrow_step(m, owner, ids);
    if !m.contains_key(owner) && ids =~= Set::<i64>::empty() {
        assert(m1 == m);
    } else {
        assert(m1.contains_key(owner));
        let m2 = strip_ids(m1, ids).insert(owner, set_at(m1, owner).union(ids));
        assert forall|t: Seq<char>| #[trigger] m1.contains_key(t) implies m2[t] == m1[t] by {
            if t == owner {
                assert(set_at(m1, owner).union(ids) =~= m1[owner]);
            } else {
                assert(m.contains_key(t));
                assert(m1[t] == m[t].difference(ids));
                assert(m1[t].difference(ids) =~= m1[t]);
            }
        }
        assert(m2 =~= m1);
    }
}

/// Toggling to the previous tag twice restores the tag focused at the
/// start, whichever way the first toggle went; and whenever a toggle
/// switches at all, it leaves no borrow record behind.
pub proof fn lemma_toggle_round_trip(v: TagStateView)
    ensures
        toggle_step(toggle_step(v)).focused == v.focused,
        v.prev != v.focused ==> toggle_step(v).borrowed == Map::<Seq<char>, Set<i64>>::empty(),
{
}

/// No container is ever recorded under two owning tags at once: in a
/// well-formed state, two owners that both record `id` are the same tag.
/// Every operation of this machine preserves well-formedness, and the
/// daemon serializes commands and focus notifications over one machine,
/// so the property holds in every reachable state, whatever the
/// interleaving.
pub proof fn lemma_unique_owner(st: &SwaylessOutput, t1: Seq<char>, t2: Seq<char>, id: i64)
    requires
        st.wf(),
        st@.borrowed.contains_key(t1),
        st@.borrowed[t1].contains(id),
        st@.borrowed.contains_key(t2),
        st@.borrowed[t2].contains(id),
    ensures
        t1 == t2,
{
    let s = st.borrowed_tags@;
    let i1 = tag_index(s, t1);
    let i2 = tag_index(s, t2);
    assert(0 <= i1 < s.len() && s[i1].tag@ == t1);
    assert(0 <= i2 < s.len() && s[i2].tag@ == t2);
    assert(s[i1].ids@.contains(id));
    assert(s[i2].ids@.contains(id));
    if i1 != i2 {
        if i1 < i2 {
            assert(entries_disjoint(s[i1], s[i2]));
        } else {
            assert(entries_disjoint(s[i2], s[i1]));
        }
    }
}

/// One move command per id, all to the concrete workspace `ws`.
fn moves_for_ids(ids: &Vec<i64>, ws: &String) -> (cmds: Vec<WmCommand>)
    ensures
        cmds@.len() == ids@.len(),
        forall|j: int|
            0 <= j < cmds@.len() ==> (#[trigger] cmds@[j]) is MoveContainerToWorkspace
                && cmds@[j]->container == ids@[j] && cmds@[j]->destination@ == ws@,
{
    let mut cmds: Vec<WmCommand> = Vec::new();
    let mut k: usize = 0;
    while k < ids.len()
        invariant
            k <= ids@.len(),
            cmds@.len() == k,
            forall|j: int|
                0 <= j < k ==> (#[trigger] cmds@[j]) is MoveContainerToWorkspace
                    && cmds@[j]->container == ids@[j] && cmds@[j]->destination@ == ws@,
        decreases ids@.len() - k,
    {
        cmds.push(
            WmCommand::MoveContainerToWorkspace { container: ids[k], destination: ws.clone() },
        );
        k = k + 1;
    }
    cmds
}

/// The position of the first occurrence of `x` in `v`.
fn vec_find_i64(v: &Vec<i64>, x: i64) -> (r: Option<usize>)
    ensures
        match r {
            Some(i) => i < v@.len() && v@[i as int] == x,
            None => !v@.contains(x),
        },
{
    let mut i: usize = 0;
    while i < v.len()
        invariant
            i <= v@.len(),
            forall|j: int| 0 <= j < i ==> v@[j] != x,
        decreases v@.len() - i,
    {
        if v[i] == x {
            return Some(i);
        }
        i = i + 1;
    }
    None
}

} // verus!
