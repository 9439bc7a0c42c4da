use vstd::prelude::*;

use crate::registry::{records_wf, release_model, Record};
use crate::span::ID;

verus! {

/// The records that name `p` as their parent.
pub open spec fn children(m: Map<ID, Record>, p: ID) -> Set<ID> {
    m.dom().filter(|k: ID| m[k].0 == Some(p))
}

/// Every record's parent is in the registry, and every record's count covers
/// the references its children hold on it.
pub open spec fn held_open(m: Map<ID, Record>) -> bool {
    &&& forall|k: ID| #[trigger]
        m.contains_key(k) && m[k].0 is Some ==> m.contains_key(m[k].0->Some_0)
    &&& forall|p: ID| #[trigger] m.contains_key(p) ==> children(m, p).len() <= m[p].2
}

proof fn lemma_children_after_remove(m: Map<ID, Record>, id: ID, q: ID)
    requires
        m.dom().finite(),
        m.contains_key(id),
    ensures
        children(m.remove(id), q) == children(m, q).remove(id),
        children(m, q).finite(),
        children(m.remove(id), q).len() == if children(m, q).contains(id) {
            children(m, q).len() - 1
        } else {
            children(m, q).len() as int
        },
{
    assert(children(m.remove(id), q) =~= children(m, q).remove(id));
    m.dom().lemma_len_filter(|k: ID| m[k].0 == Some(q));
}

/// One step of a release, on a reference that is not a child's: the counts
/// keep covering children, and when the record goes it has no children left
/// and its parent is still in the registry, held by a reference that was the
/// record's.
pub proof fn lemma_release_step(m: Map<ID, Record>, id: ID)
    requires
        records_wf(m),
        held_open(m),
        m.contains_key(id),
        children(m, id).len() < m[id].2,
    ensures
        m[id].2 != 1 ==> records_wf(m.insert(id, (m[id].0, m[id].1, (m[id].2 - 1) as usize)))
            && held_open(m.insert(id, (m[id].0, m[id].1, (m[id].2 - 1) as usize))),
        m[id].2 == 1 ==> records_wf(m.remove(id)) && held_open(m.remove(id)),
        m[id].2 == 1 ==> (m[id].0 matches Some(p) ==> m.remove(id).contains_key(p) && children(
            m.remove(id),
            p,
        ).len() < m.remove(id)[p].2),
{
    if m[id].2 != 1 {
        let m1 = m.insert(id, (m[id].0, m[id].1, (m[id].2 - 1) as usize));
        assert forall|p: ID| #[trigger] m1.contains_key(p) implies children(m1, p).len()
            <= m1[p].2 by {
            assert(children(m1, p) =~= children(m, p));
        }
        assert forall|k: ID| #[trigger]
            m1.contains_key(k) && m1[k].0 is Some implies m1.contains_key(m1[k].0->Some_0) by {
        }
    } else {
        let rest = m.remove(id);
        m.dom().lemma_len_filter(|k: ID| m[k].0 == Some(id));
        assert forall|q: ID| #[trigger] rest.contains_key(q) implies children(rest, q).len()
            <= rest[q].2 by {
            lemma_children_after_remove(m, id, q);
        }
        assert forall|k: ID| #[trigger]
            rest.contains_key(k) && rest[k].0 is Some implies rest.contains_key(
            rest[k].0->Some_0,
        ) by {
            if rest[k].0 == Some(id) {
                assert(children(m, id).contains(k));
            }
        }
        if let Some(p) = m[id].0 {
            assert(m.contains_key(p));
            assert(p != id) by {
                if p == id {
                    assert(children(m, id).contains(id));
                }
            }
            lemma_children_after_remove(m, id, p);
            assert(children(m, p).contains(id));
        }
    }
}

/// A release keeps every record that it does not remove, with the same
/// parent and start time.
pub proof fn lemma_release_keeps_records(m: Map<ID, Record>, id: ID)
    requires
        records_wf(m),
    ensures
        forall|k: ID| #[trigger]
            release_model(m, id).0.contains_key(k) ==> m.contains_key(k)
                && release_model(m, id).0[k].0 == m[k].0 && release_model(m, id).0[k].1 == m[k].1,
    decreases m.dom().len(),
{
    let r = release_model(m, id);
    if m.contains_key(id) && m[id].2 == 1 {
        let rest = m.remove(id);
        assert(records_wf(rest));
        if let Some(p) = m[id].0 {
            lemma_release_keeps_records(rest, p);
            assert(r.0 == release_model(rest, p).0);
            assert forall|k: ID| #[trigger] r.0.contains_key(k) implies m.contains_key(k)
                && r.0[k].0 == m[k].0 && r.0[k].1 == m[k].1 by {
                assert(release_model(rest, p).0.contains_key(k));
                assert(rest.contains_key(k));
            }
        } else {
            assert(r.0 == rest);
        }
    } else if m.contains_key(id) {
        assert forall|k: ID| #[trigger] r.0.contains_key(k) implies m.contains_key(k) && r.0[k].0
            == m[k].0 && r.0[k].1 == m[k].1 by {
            if k == id {
            }
        }
    }
}

/// While a span is held open by its children, releasing the reference of a
/// guard (one that is not a child's) reports no span that a remaining record
/// still names as its parent: a parent is reported only after all its
/// children. Counts keep covering children afterwards.
pub proof fn lemma_parent_reported_after_children(m: Map<ID, Record>, id: ID)
    requires
        records_wf(m),
        held_open(m),
        m.contains_key(id) ==> children(m, id).len() < m[id].2,
    ensures
        held_open(release_model(m, id).0),
        forall|i: int|
            0 <= i < release_model(m, id).1.len() ==> children(
                release_model(m, id).0,
                #[trigger] release_model(m, id).1[i],
            ).is_empty(),
    decreases m.dom().len(),
{
    let r = release_model(m, id);
    if !m.contains_key(id) {
    } else if m[id].2 != 1 {
        let m1 = m.insert(id, (m[id].0, m[id].1, (m[id].2 - 1) as usize));
        assert forall|p: ID| #[trigger] m1.contains_key(p) implies children(m1, p).len()
            <= m1[p].2 by {
            assert(children(m1, p) =~= children(m, p));
        }
        assert forall|k: ID| #[trigger]
            m1.contains_key(k) && m1[k].0 is Some implies m1.contains_key(m1[k].0->Some_0) by {
        }
    } else {
        let rest = m.remove(id);
        assert(records_wf(rest));
        assert(children(m, id).len() == 0);
        m.dom().lemma_len_filter(|k: ID| m[k].0 == Some(id));
        assert forall|q: ID| #[trigger] rest.contains_key(q) implies children(rest, q).len()
            <= rest[q].2 by {
            lemma_children_after_remove(m, id, q);
        }
        assert forall|k: ID| #[trigger]
            rest.contains_key(k) && rest[k].0 is Some implies rest.contains_key(
            rest[k].0->Some_0,
        ) by {
            if rest[k].0 == Some(id) {
                assert(children(m, id).contains(k));
            }
        }
        lemma_children_after_remove(m, id, id);
        assert(children(rest, id) =~= Set::<ID>::empty());
        match m[id].0 {
            None => {
                assert(r.1 =~= seq![id]);
            },
            Some(p) => {
                if rest.contains_key(p) {
                    lemma_children_after_remove(m, id, p);
                    assert(children(m, p).contains(id));
                }
                lemma_parent_reported_after_children(rest, p);
                lemma_release_keeps_records(rest, p);
                let t = release_model(rest, p);
                assert(children(t.0, id) =~= Set::<ID>::empty()) by {
                    assert forall|k: ID| children(t.0, id).contains(k) implies false by {
                        assert(rest.contains_key(k) && rest[k].0 == Some(id));
                        assert(children(rest, id).contains(k));
                    }
                }
                assert forall|i: int| 0 <= i < r.1.len() implies children(
                    r.0,
                    #[trigger] r.1[i],
                ).is_empty() by {
                    if i > 0 {
                        assert(r.1[i] == t.1[i - 1]);
                    }
                }
            },
        }
    }
}

/// Creating a root span, or a child of a live span, keeps every count
/// covering the references that children hold.
pub proof fn lemma_creation_keeps_held_open(
    m: Map<ID, Record>,
    parent: Option<ID>,
    k: ID,
    start: u64,
)
    requires
        records_wf(m),
        held_open(m),
        !m.contains_key(k),
        parent matches Some(p) ==> m.contains_key(p) && m[p].2 < usize::MAX,
    ensures
        held_open(
            match parent {
                None => m.insert(k, (None, start, 1usize)),
                Some(p) => m.insert(p, (m[p].0, m[p].1, (m[p].2 + 1) as usize)).insert(
                    k,
                    (Some(p), start, 1usize),
                ),
            },
        ),
{
    let held = match parent {
        None => m,
        Some(p) => m.insert(p, (m[p].0, m[p].1, (m[p].2 + 1) as usize)),
    };
    let m2 = held.insert(k, (parent, start, 1usize));
    assert forall|x: ID| #[trigger]
        m2.contains_key(x) && m2[x].0 is Some implies m2.contains_key(m2[x].0->Some_0) by {
    }
    assert forall|q: ID| #[trigger] m2.contains_key(q) implies children(m2, q).len() <= m2[q].2 by {
        m.dom().lemma_len_filter(|x: ID| m[x].0 == Some(q));
        if q == k {
            assert(children(m2, q) =~= children(m, q));
            assert(children(m, q) =~= Set::<ID>::empty()) by {
                assert forall|x: ID| children(m, q).contains(x) implies false by {
                    assert(m.contains_key(x) && m[x].0 == Some(k));
                }
            }
        } else if parent == Some(q) {
            assert(children(m2, q) =~= children(m, q).insert(k));
        } else {
            assert(children(m2, q) =~= children(m, q));
        }
    }
}

/// A root span that is released once, holding its only reference, is
/// reported exactly once, and the registry is left as it was before the span
/// was created.
pub proof fn lemma_lone_root_reported_once(m: Map<ID, Record>, id: ID, start: u64)
    requires
        records_wf(m),
        !m.contains_key(id),
    ensures
        release_model(m.insert(id, (None, start, 1usize)), id) == (m, seq![id]),
{
    let m1 = m.insert(id, (None::<ID>, start, 1usize));
    assert(m1.remove(id) =~= m);
}

/// No span that a release reports can still be found in the registry
/// afterwards, and a release adds no record.
pub proof fn lemma_reported_not_resolvable(m: Map<ID, Record>, id: ID)
    requires
        records_wf(m),
    ensures
        forall|i: int|
            0 <= i < release_model(m, id).1.len() ==> !release_model(m, id).0.contains_key(
                #[trigger] release_model(m, id).1[i],
            ) && m.contains_key(release_model(m, id).1[i]),
        forall|k: ID| #[trigger] release_model(m, id).0.contains_key(k) ==> m.contains_key(k),
        records_wf(release_model(m, id).0),
    decreases m.dom().len(),
{
    if m.contains_key(id) && m[id].2 == 1 {
        let rest = m.remove(id);
        assert(records_wf(rest));
        if let Some(p) = m[id].0 {
            lemma_reported_not_resolvable(rest, p);
            let tail = release_model(rest, p).1;
            assert forall|i: int| 0 <= i < release_model(m, id).1.len() implies !release_model(
                m,
                id,
            ).0.contains_key(#[trigger] release_model(m, id).1[i]) && m.contains_key(
                release_model(m, id).1[i],
            ) by {
                if i > 0 {
                    assert(release_model(m, id).1[i] == tail[i - 1]);
                }
            }
        }
    }
}

/// Spans are reported child first: each span that a release reports is
/// followed by its parent, as the reference that the child held on the parent
/// is dropped.
pub proof fn lemma_reported_before_parent(m: Map<ID, Record>, id: ID)
    requires
        records_wf(m),
    ensures
        forall|i: int|
            0 <= i < release_model(m, id).1.len() - 1 ==> m.contains_key(
                #[trigger] release_model(m, id).1[i],
            ) && m[release_model(m, id).1[i]].0 == Some(release_model(m, id).1[i + 1]),
    decreases m.dom().len(),
{
    if m.contains_key(id) && m[id].2 == 1 {
        let rest = m.remove(id);
        assert(records_wf(rest));
        if let Some(p) = m[id].0 {
            lemma_reported_before_parent(rest, p);
            lemma_reported_not_resolvable(rest, p);
            let tail = release_model(rest, p).1;
            assert forall|i: int| 0 <= i < release_model(m, id).1.len() - 1 implies m.contains_key(
                #[trigger] release_model(m, id).1[i],
            ) && m[release_model(m, id).1[i]].0 == Some(release_model(m, id).1[i + 1]) by {
                if i == 0 {
                    if tail.len() > 0 {
                        assert(tail[0] == p);
                    }
                } else {
                    assert(release_model(m, id).1[i] == tail[i - 1]);
                    assert(rest.contains_key(tail[i - 1]));
                }
            }
        }
    }
}

/// Releasing the last reference to a child whose parent is still held by
/// others reports the child alone, and leaves the parent with one reference
/// fewer.
pub proof fn lemma_child_release_keeps_parent(m: Map<ID, Record>, c: ID, p: ID)
    requires
        records_wf(m),
        m.contains_key(c),
        m[c].0 == Some(p),
        m[c].2 == 1,
        m.contains_key(p),
        m[p].2 >= 2,
    ensures
        release_model(m, c) == (
            m.remove(c).insert(p, (m[p].0, m[p].1, (m[p].2 - 1) as usize)),
            seq![c],
        ),
{
    assert(c != p);
    let rest = m.remove(c);
    assert(rest.contains_key(p));
    assert(rest[p] == m[p]);
    assert(release_model(rest, p) == (
        rest.insert(p, (m[p].0, m[p].1, (m[p].2 - 1) as usize)),
        Seq::<ID>::empty(),
    ));
    assert(seq![c] + Seq::<ID>::empty() =~= seq![c]);
}

/// Releasing references one after another, in the order of `ids`: the
/// records afterwards, and all the spans reported, in order.
pub open spec fn release_all(m: Map<ID, Record>, ids: Seq<ID>) -> (Map<ID, Record>, Seq<ID>)
    decreases ids.len(),
{
    if ids.len() == 0 {
        (m, Seq::empty())
    } else {
        let r = release_model(m, ids[0]);
        let t = release_all(r.0, ids.drop_first());
        (t.0, r.1 + t.1)
    }
}

proof fn lemma_release_children(m: Map<ID, Record>, p: ID, cs: Seq<ID>)
    requires
        records_wf(m),
        m.contains_key(p),
        cs.no_duplicates(),
        forall|i: int|
            0 <= i < cs.len() ==> m.contains_key(#[trigger] cs[i]) && m[cs[i]].0 == Some(p)
                && m[cs[i]].2 == 1 && cs[i] != p,
        m[p].2 >= cs.len() + 1,
    ensures
        release_all(m, cs).1 == cs,
        release_all(m, cs).0.contains_key(p),
        release_all(m, cs).0[p] == (m[p].0, m[p].1, (m[p].2 - cs.len()) as usize),
        records_wf(release_all(m, cs).0),
        forall|k: ID| #[trigger]
            release_all(m, cs).0.contains_key(k) ==> m.contains_key(k) && !cs.contains(k),
        forall|k: ID|
            #![trigger release_all(m, cs).0[k]]
            release_all(m, cs).0.contains_key(k) && k != p ==> release_all(m, cs).0[k] == m[k],
        forall|k: ID| #[trigger]
            m.contains_key(k) && !cs.contains(k) ==> release_all(m, cs).0.contains_key(k),
    decreases cs.len(),
{
    if cs.len() == 0 {
        assert(release_all(m, cs).0 == m);
    } else {
        let c = cs[0];
        lemma_child_release_keeps_parent(m, c, p);
        let m1 = m.remove(c).insert(p, (m[p].0, m[p].1, (m[p].2 - 1) as usize));
        let rest = cs.drop_first();
        assert forall|i: int| 0 <= i < rest.len() implies m1.contains_key(#[trigger] rest[i])
            && m1[rest[i]].0 == Some(p) && m1[rest[i]].2 == 1 && rest[i] != p by {
            assert(rest[i] == cs[i + 1]);
        }
        lemma_release_children(m1, p, rest);
        assert(seq![c] + rest =~= cs);
        let r = release_all(m1, rest).0;
        assert forall|k: ID| #[trigger] r.contains_key(k) implies m.contains_key(k) && !cs.contains(k)
            by {
            if cs.contains(k) {
                let j = choose|j: int| 0 <= j < cs.len() && cs[j] == k;
                if j > 0 {
                    assert(rest[j - 1] == k);
                }
            }
        }
        assert forall|k: ID| #[trigger] m.contains_key(k) && !cs.contains(k) implies r.contains_key(k)
            by {
            if rest.contains(k) {
                let j = choose|j: int| 0 <= j < rest.len() && rest[j] == k;
                assert(cs[j + 1] == k);
            }
            assert(cs[0] == c);
            assert(k != c);
            assert(m1.contains_key(k));
            assert(m1.contains_key(k) && !rest.contains(k));
        }
    }
}

/// A parent that holds one reference for its own guard and one for each of
/// its children, released child by child in any order, reports exactly those
/// children, one record per release; the release of the parent's guard then
/// reports the parent alone, last. (Left out: a parent whose own parent it
/// holds open alone, as its release then reports that ancestor too.)
pub proof fn lemma_children_then_parent(m: Map<ID, Record>, p: ID, cs: Seq<ID>)
    requires
        records_wf(m),
        m.contains_key(p),
        cs.no_duplicates(),
        forall|i: int|
            0 <= i < cs.len() ==> m.contains_key(#[trigger] cs[i]) && m[cs[i]].0 == Some(p)
                && m[cs[i]].2 == 1 && cs[i] != p,
        m[p].2 == cs.len() + 1,
        m[p].0 matches Some(q) ==> m.contains_key(q) && m[q].2 >= 2,
    ensures
        release_all(m, cs).1 == cs,
        release_model(release_all(m, cs).0, p).1 == seq![p],
        !release_model(release_all(m, cs).0, p).0.contains_key(p),
{
    lemma_release_children(m, p, cs);
    let r = release_all(m, cs).0;
    assert(r[p].2 == 1);
    let rest = r.remove(p);
    assert(!rest.contains_key(p));
    match m[p].0 {
        None => {
            assert(release_model(r, p) == (rest, seq![p]));
        },
        Some(q) => {
            assert(release_model(r, p) == (release_model(rest, q).0, seq![p] + release_model(
                rest,
                q,
            ).1));
            if q != p {
                assert(!cs.contains(q)) by {
                    if cs.contains(q) {
                        let j = choose|j: int| 0 <= j < cs.len() && cs[j] == q;
                        assert(m[cs[j]].2 == 1);
                    }
                }
                assert(r.contains_key(q));
                assert(rest.contains_key(q) && rest[q] == m[q]);
                assert(release_model(rest, q).1 == Seq::<ID>::empty());
                assert(!release_model(rest, q).0.contains_key(p));
            } else {
                assert(release_model(rest, q) == (rest, Seq::<ID>::empty()));
            }
            assert(seq![p] + Seq::<ID>::empty() =~= seq![p]);
        },
    }
}

} // verus!
