//! The shared membership snapshot and the one mutation applied to it.
//!
//! The snapshot is the authoritative view of who is in which room,
//! decomposed into three indices kept consistent with one another:
//! display names by session, members by room, and rooms by session.  The
//! only way to change it is [`Snapshot::apply_change`], which applies a
//! single [`ChangeRoomReq`] atomically; the shared store executes this
//! mutation as one transaction, so concurrent writers never interleave
//! half-applied states.

use vstd::prelude::*;

use crate::hub::{
    ChangeRoomReq, RecordModel, RetrieveRroomsReq, RetrieveRroomsReqType,
    RoomChangeForHubResponse, RoomChangeType, RoomView, UpdateRooms,
};

verus! {

/// A session identifier together with its display name.
pub struct SessionEntry {
    pub id: String,
    pub name: String,
}

impl Clone for SessionEntry {
    fn clone(&self) -> (r: Self)
        ensures
            r.id@ == self.id@,
            r.name@ == self.name@,
    {
        SessionEntry { id: self.id.clone(), name: self.name.clone() }
    }
}

/// Whether some entry of the list carries key `k`.
pub open spec fn sl_has_key(s: Seq<SessionEntry>, k: Seq<char>) -> bool {
    exists|i: int| 0 <= i < s.len() && s[i].id@ == k
}

/// The index of the entry carrying key `k` (unique under `sl_wf`).
pub open spec fn sl_idx_of(s: Seq<SessionEntry>, k: Seq<char>) -> int {
    choose|i: int| 0 <= i < s.len() && s[i].id@ == k
}

/// The list read as a map from session id to display name.
pub open spec fn sl_map(s: Seq<SessionEntry>) -> Map<Seq<char>, Seq<char>> {
    Map::new(|k: Seq<char>| sl_has_key(s, k), |k: Seq<char>| s[sl_idx_of(s, k)].name@)
}

/// Keys appear at most once.
pub open spec fn sl_wf(s: Seq<SessionEntry>) -> bool {
    forall|i: int, j: int| 0 <= i < s.len() && 0 <= j < s.len() && i != j ==> s[i].id@ != s[j].id@
}

/// Under `sl_wf`, an entry with key `k` at index `i` is the entry the
/// map reads.
pub proof fn lemma_sl_idx(s: Seq<SessionEntry>, k: Seq<char>, i: int)
    requires
        sl_wf(s),
        0 <= i < s.len(),
        s[i].id@ == k,
    ensures
        sl_has_key(s, k),
        sl_idx_of(s, k) == i,
{
    assert(sl_has_key(s, k));
    let j = sl_idx_of(s, k);
    assert(0 <= j < s.len() && s[j].id@ == k);
    if i != j {
        assert(s[i].id@ != s[j].id@);
        assert(false);
    }
}

/// Find the entry holding `id`, if any.
fn sl_find(v: &Vec<SessionEntry>, id: &String) -> (r: Option<usize>)
    requires
        sl_wf(v@),
    ensures
        match r {
            Some(i) => i < v@.len() && v@[i as int].id@ == id@ && sl_has_key(v@, id@) && sl_idx_of(
                v@,
                id@,
            ) == i,
            None => !sl_has_key(v@, id@),
        },
{
    let mut i: usize = 0;
    while i < v.len()
        invariant
            i <= v@.len(),
            sl_wf(v@),
            forall|j: int| 0 <= j < i ==> v@[j].id@ != id@,
        decreases v@.len() - i,
    {
        if v[i].id == *id {
            proof {
                lemma_sl_idx(v@, id@, i as int);
            }
            return Some(i);
        }
        i += 1;
    }
    None
}

/// Insert or overwrite the display name recorded for `id`.
fn sl_set(v: &mut Vec<SessionEntry>, id: &String, name: String)
    requires
        sl_wf(old(v)@),
    ensures
        sl_wf(final(v)@),
        sl_map(final(v)@) =~= sl_map(old(v)@).insert(id@, name@),
{
    let found = sl_find(v, id);
    match found {
        Some(i) => {
            let ghost oldv = v@;
            v[i].name = name;
            proof {
                assert(v@ =~= oldv.update(i as int, v@[i as int]));
                assert forall|k: Seq<char>| sl_has_key(v@, k) == sl_has_key(oldv, k) by {
                    if sl_has_key(v@, k) {
                        let w = choose|w: int| 0 <= w < v@.len() && v@[w].id@ == k;
                        assert(oldv[w].id@ == k);
                    }
                    if sl_has_key(oldv, k) {
                        let w = choose|w: int| 0 <= w < oldv.len() && oldv[w].id@ == k;
                        assert(v@[w].id@ == k);
                    }
                }
                assert forall|k: Seq<char>| #[trigger] sl_has_key(v@, k) implies sl_map(v@)[k]
                    == sl_map(oldv).insert(id@, name@)[k] by {
                    let w = choose|w: int| 0 <= w < v@.len() && v@[w].id@ == k;
                    lemma_sl_idx(v@, k, w);
                    if k == id@ {
                        lemma_sl_idx(v@, id@, i as int);
                    } else {
                        lemma_sl_idx(oldv, k, w);
                    }
                }
            }
        },
        None => {
            let ghost oldv = v@;
            v.push(SessionEntry { id: id.clone(), name });
            proof {
                assert forall|w: int, x: int|
                    0 <= w < v@.len() && 0 <= x < v@.len() && w != x implies v@[w].id@
                    != v@[x].id@ by {
                    if w < oldv.len() && x < oldv.len() {
                    } else if w == oldv.len() {
                        assert(v@[x].id@ != id@);
                    } else if x == oldv.len() {
                        assert(v@[w].id@ != id@);
                    }
                }
                assert forall|k: Seq<char>| #[trigger] sl_has_key(v@, k) implies sl_map(
                    oldv,
                ).insert(id@, name@).dom().contains(k) by {
                    let w = choose|w: int| 0 <= w < v@.len() && v@[w].id@ == k;
                    if w < oldv.len() {
                        assert(sl_has_key(oldv, k));
                    }
                }
                assert forall|k: Seq<char>| sl_map(oldv).insert(id@, name@).dom().contains(
                    k,
                ) implies #[trigger] sl_has_key(v@, k) by {
                    if k == id@ {
                        assert(v@[oldv.len() as int].id@ == k);
                    } else {
                        let w = choose|w: int| 0 <= w < oldv.len() && oldv[w].id@ == k;
                        assert(v@[w].id@ == k);
                    }
                }
                assert forall|k: Seq<char>| #[trigger] sl_has_key(v@, k) implies sl_map(v@)[k]
                    == sl_map(oldv).insert(id@, name@)[k] by {
                    if k == id@ {
                        lemma_sl_idx(v@, id@, oldv.len() as int);
                    } else {
                        let w = choose|w: int| 0 <= w < v@.len() && v@[w].id@ == k;
                        assert(w < oldv.len());
                        lemma_sl_idx(v@, k, w);
                        lemma_sl_idx(oldv, k, w);
                    }
                }
            }
        },
    }
}

/// Drop the entry recorded for `id`, if any.
fn sl_remove(v: &mut Vec<SessionEntry>, id: &String)
    requires
        sl_wf(old(v)@),
    ensures
        sl_wf(final(v)@),
        sl_map(final(v)@) =~= sl_map(old(v)@).remove(id@),
{
    let found = sl_find(v, id);
    match found {
        Some(i) => {
            let ghost oldv = v@;
            v.remove(i);
            proof {
                let n = oldv.len() as int;
                assert forall|w: int, x: int|
                    0 <= w < v@.len() && 0 <= x < v@.len() && w != x implies v@[w].id@
                    != v@[x].id@ by {
                    let ow = if w < i { w } else { w + 1 };
                    let ox = if x < i { x } else { x + 1 };
                    assert(v@[w] == oldv[ow]);
                    assert(v@[x] == oldv[ox]);
                }
                assert forall|k: Seq<char>| #[trigger] sl_has_key(v@, k) implies sl_map(
                    oldv,
                ).remove(id@).dom().contains(k) by {
                    let w = choose|w: int| 0 <= w < v@.len() && v@[w].id@ == k;
                    let ow = if w < i { w } else { w + 1 };
                    assert(oldv[ow].id@ == k);
                    assert(sl_has_key(oldv, k));
                    if k == id@ {
                        lemma_sl_idx(oldv, id@, i as int);
                        assert(ow == i);
                        assert(false);
                    }
                }
                assert forall|k: Seq<char>| sl_map(oldv).remove(id@).dom().contains(
                    k,
                ) implies #[trigger] sl_has_key(v@, k) by {
                    let w = choose|w: int| 0 <= w < oldv.len() && oldv[w].id@ == k;
                    lemma_sl_idx(oldv, k, w);
                    assert(w != i);
                    let nw = if w < i { w } else { w - 1 };
                    assert(v@[nw].id@ == k);
                }
                assert forall|k: Seq<char>| #[trigger] sl_has_key(v@, k) implies sl_map(v@)[k]
                    == sl_map(oldv).remove(id@)[k] by {
                    let w = choose|w: int| 0 <= w < v@.len() && v@[w].id@ == k;
                    lemma_sl_idx(v@, k, w);
                    let ow = if w < i { w } else { w + 1 };
                    assert(oldv[ow].id@ == k);
                    lemma_sl_idx(oldv, k, ow);
                }
            }
        },
        None => {
            proof {
                assert forall|k: Seq<char>| #[trigger] sl_has_key(v@, k) implies sl_map(
                    old(v)@,
                ).remove(id@).dom().contains(k) by {
                    assert(k != id@);
                }
            }
        },
    }
}

/// One key of a grouping index together with the distinct values
/// grouped under it; an entry is never kept empty.
pub struct GroupEntry {
    pub key: String,
    pub elems: Vec<String>,
}

/// Whether some entry of the list carries key `k`.
pub open spec fn gl_has_key(s: Seq<GroupEntry>, k: Seq<char>) -> bool {
    exists|i: int| 0 <= i < s.len() && s[i].key@ == k
}

/// The index of the entry carrying key `k` (unique under `gl_wf`).
pub open spec fn gl_idx_of(s: Seq<GroupEntry>, k: Seq<char>) -> int {
    choose|i: int| 0 <= i < s.len() && s[i].key@ == k
}

/// The list read as a map from key to the set of grouped values.
pub open spec fn gl_map(s: Seq<GroupEntry>) -> Map<Seq<char>, Set<Seq<char>>> {
    Map::new(
        |k: Seq<char>| gl_has_key(s, k),
        |k: Seq<char>| s[gl_idx_of(s, k)].elems.deep_view().to_set(),
    )
}

/// Keys appear at most once, grouped values are distinct, and no entry
/// is empty.
pub open spec fn gl_wf(s: Seq<GroupEntry>) -> bool {
    &&& forall|i: int, j: int|
        0 <= i < s.len() && 0 <= j < s.len() && i != j ==> s[i].key@ != s[j].key@
    &&& forall|i: int| 0 <= i < s.len() ==> (#[trigger] s[i].elems.deep_view()).no_duplicates()
    &&& forall|i: int| 0 <= i < s.len() ==> s[i].elems.len() > 0
}

/// The set grouped under `k`, or the empty set when `k` is absent.
pub open spec fn gl_elems_or_empty(s: Seq<GroupEntry>, k: Seq<char>) -> Set<Seq<char>> {
    if gl_has_key(s, k) {
        gl_map(s)[k]
    } else {
        Set::empty()
    }
}

/// How a grouping map changes when one value leaves a key: the key
/// itself leaves the map when its last value goes.
pub open spec fn gl_map_after_remove(
    m: Map<Seq<char>, Set<Seq<char>>>,
    k: Seq<char>,
    e: Seq<char>,
) -> Map<Seq<char>, Set<Seq<char>>> {
    if m[k].remove(e) == Set::<Seq<char>>::empty() {
        m.remove(k)
    } else {
        m.insert(k, m[k].remove(e))
    }
}

/// Under `gl_wf`, an entry with key `k` at index `i` is the entry the
/// map reads.
pub proof fn lemma_gl_idx(s: Seq<GroupEntry>, k: Seq<char>, i: int)
    requires
        gl_wf(s),
        0 <= i < s.len(),
        s[i].key@ == k,
    ensures
        gl_has_key(s, k),
        gl_idx_of(s, k) == i,
{
    assert(gl_has_key(s, k));
    let j = gl_idx_of(s, k);
    assert(0 <= j < s.len() && s[j].key@ == k);
    if i != j {
        assert(s[i].key@ != s[j].key@);
        assert(false);
    }
}

/// Appending a value inserts it into the sequence's set of values.
pub proof fn lemma_push_to_set(s: Seq<Seq<char>>, x: Seq<char>)
    ensures
        s.push(x).to_set() =~= s.to_set().insert(x),
{
    assert forall|y: Seq<char>| s.push(x).to_set().contains(y) implies s.to_set().insert(
        x,
    ).contains(y) by {
        let w = choose|w: int| 0 <= w < s.push(x).len() && s.push(x)[w] == y;
        if w < s.len() {
            assert(s[w] == y);
        }
    }
    assert forall|y: Seq<char>| s.to_set().insert(x).contains(y) implies s.push(x).to_set().contains(
        y,
    ) by {
        if y == x {
            assert(s.push(x)[s.len() as int] == y);
        } else {
            let w = choose|w: int| 0 <= w < s.len() && s[w] == y;
            assert(s.push(x)[w] == y);
        }
    }
}

/// Removing the one index holding a value removes it from the
/// sequence's set of values, when values are distinct.
pub proof fn lemma_remove_to_set(s: Seq<Seq<char>>, j: int)
    requires
        s.no_duplicates(),
        0 <= j < s.len(),
    ensures
        s.remove(j).to_set() =~= s.to_set().remove(s[j]),
{
    s.remove_ensures(j);
    assert forall|y: Seq<char>| s.remove(j).to_set().contains(y) implies s.to_set().remove(
        s[j],
    ).contains(y) by {
        let w = choose|w: int| 0 <= w < s.remove(j).len() && s.remove(j)[w] == y;
        let ow: int = if w < j {
            w
        } else {
            w + 1
        };
        assert(s[ow] == y);
        assert(ow != j);
    }
    assert forall|y: Seq<char>| s.to_set().remove(s[j]).contains(y) implies s.remove(
        j,
    ).to_set().contains(y) by {
        let w = choose|w: int| 0 <= w < s.len() && s[w] == y;
        assert(w != j);
        let nw: int = if w < j {
            w
        } else {
            w - 1
        };
        assert(s.remove(j)[nw] == y);
    }
}

/// Find the index of `x` in a list of strings.
pub(crate) fn str_vec_find(v: &Vec<String>, x: &String) -> (r: Option<usize>)
    ensures
        match r {
            Some(j) => j < v@.len() && v@[j as int]@ == x@ && v.deep_view().contains(x@),
            None => !v.deep_view().contains(x@),
        },
{
    let mut j: usize = 0;
    while j < v.len()
        invariant
            j <= v@.len(),
            forall|w: int| 0 <= w < j ==> v.deep_view()[w] != x@,
        decreases v@.len() - j,
    {
        if v[j] == *x {
            assert(v.deep_view()[j as int] == x@);
            return Some(j);
        }
        assert(v.deep_view()[j as int] == v@[j as int]@);
        j += 1;
    }
    None
}

/// Find the entry holding key `k`, if any.
fn gl_find(v: &Vec<GroupEntry>, k: &String) -> (r: Option<usize>)
    requires
        gl_wf(v@),
    ensures
        match r {
            Some(i) => i < v@.len() && v@[i as int].key@ == k@ && gl_has_key(v@, k@) && gl_idx_of(
                v@,
                k@,
            ) == i,
            None => !gl_has_key(v@, k@),
        },
{
    let mut i: usize = 0;
    while i < v.len()
        invariant
            i <= v@.len(),
            gl_wf(v@),
            forall|j: int| 0 <= j < i ==> v@[j].key@ != k@,
        decreases v@.len() - i,
    {
        if v[i].key == *k {
            proof {
                lemma_gl_idx(v@, k@, i as int);
            }
            return Some(i);
        }
        i += 1;
    }
    None
}

/// Group value `e` under key `k`, creating the entry if the key is new;
/// grouping an already-present value changes nothing.
fn gl_add(v: &mut Vec<GroupEntry>, k: &String, e: &String)
    requires
        gl_wf(old(v)@),
    ensures
        gl_wf(final(v)@),
        gl_map(final(v)@) =~= gl_map(old(v)@).insert(
            k@,
            gl_elems_or_empty(old(v)@, k@).insert(e@),
        ),
{
    let found = gl_find(v, k);
    match found {
        Some(i) => {
            let ghost oldv = v@;
            let present = str_vec_find(&v[i].elems, e);
            match present {
                Some(_) => {
                    proof {
                        assert(gl_map(oldv)[k@].contains(e@));
                        assert(gl_map(oldv)[k@].insert(e@) =~= gl_map(oldv)[k@]);
                        assert forall|k2: Seq<char>| #[trigger] gl_map(v@).dom().contains(
                            k2,
                        ) implies gl_map(v@)[k2] == gl_map(oldv).insert(
                            k@,
                            gl_elems_or_empty(oldv, k@).insert(e@),
                        )[k2] by {}
                    }
                },
                None => {
                    v[i].elems.push(e.clone());
                    proof {
                        let oldelems = oldv[i as int].elems.deep_view();
                        let newelems = v@[i as int].elems.deep_view();
                        assert(newelems =~= oldelems.push(e@));
                        lemma_push_to_set(oldelems, e@);
                        assert(v@ =~= oldv.update(i as int, v@[i as int]));
                        assert forall|w: int, x: int|
                            0 <= w < v@.len() && 0 <= x < v@.len() && w != x implies v@[w].key@
                            != v@[x].key@ by {
                            assert(v@[w].key@ == oldv[w].key@);
                            assert(v@[x].key@ == oldv[x].key@);
                        }
                        assert forall|k2: Seq<char>| gl_has_key(v@, k2) == gl_has_key(
                            oldv,
                            k2,
                        ) by {
                            if gl_has_key(v@, k2) {
                                let w = choose|w: int| 0 <= w < v@.len() && v@[w].key@ == k2;
                                assert(oldv[w].key@ == k2);
                            }
                            if gl_has_key(oldv, k2) {
                                let w = choose|w: int| 0 <= w < oldv.len() && oldv[w].key@ == k2;
                                assert(v@[w].key@ == k2);
                            }
                        }
                        assert forall|k2: Seq<char>| #[trigger] gl_has_key(v@, k2) implies gl_map(
                            v@,
                        )[k2] == gl_map(oldv).insert(
                            k@,
                            gl_elems_or_empty(oldv, k@).insert(e@),
                        )[k2] by {
                            let w = choose|w: int| 0 <= w < v@.len() && v@[w].key@ == k2;
                            lemma_gl_idx(v@, k2, w);
                            if k2 == k@ {
                                lemma_gl_idx(v@, k@, i as int);
                            } else {
                                lemma_gl_idx(oldv, k2, w);
                            }
                        }
                    }
                },
            }
        },
        None => {
            let ghost oldv = v@;
            let mut elems: Vec<String> = Vec::new();
            elems.push(e.clone());
            v.push(GroupEntry { key: k.clone(), elems });
            proof {
                let n = oldv.len() as int;
                assert(v@[n].elems.deep_view() =~= Seq::<Seq<char>>::empty().push(e@));
                lemma_push_to_set(Seq::<Seq<char>>::empty(), e@);
                assert(Seq::<Seq<char>>::empty().to_set() =~= Set::<Seq<char>>::empty());
                assert(v@[n].elems.deep_view().to_set() =~= Set::<Seq<char>>::empty().insert(e@));
                assert forall|w: int, x: int|
                    0 <= w < v@.len() && 0 <= x < v@.len() && w != x implies v@[w].key@
                    != v@[x].key@ by {
                    if w < n && x < n {
                    } else if w == n {
                        assert(v@[x].key@ != k@);
                    } else if x == n {
                        assert(v@[w].key@ != k@);
                    }
                }
                assert forall|k2: Seq<char>| #[trigger] gl_has_key(v@, k2) implies gl_map(
                    oldv,
                ).insert(k@, gl_elems_or_empty(oldv, k@).insert(e@)).dom().contains(k2) by {
                    let w = choose|w: int| 0 <= w < v@.len() && v@[w].key@ == k2;
                    if w < n {
                        assert(gl_has_key(oldv, k2));
                    }
                }
                assert forall|k2: Seq<char>| gl_map(oldv).insert(
                    k@,
                    gl_elems_or_empty(oldv, k@).insert(e@),
                ).dom().contains(k2) implies #[trigger] gl_has_key(v@, k2) by {
                    if k2 == k@ {
                        assert(v@[n].key@ == k2);
                    } else {
                        let w = choose|w: int| 0 <= w < oldv.len() && oldv[w].key@ == k2;
                        assert(v@[w].key@ == k2);
                    }
                }
                assert forall|k2: Seq<char>| #[trigger] gl_has_key(v@, k2) implies gl_map(v@)[k2]
                    == gl_map(oldv).insert(k@, gl_elems_or_empty(oldv, k@).insert(e@))[k2] by {
                    if k2 == k@ {
                        lemma_gl_idx(v@, k@, n);
                        assert(gl_map(v@)[k2] =~= Set::<Seq<char>>::empty().insert(e@));
                        assert(gl_elems_or_empty(oldv, k@) =~= Set::<Seq<char>>::empty());
                    } else {
                        let w = choose|w: int| 0 <= w < v@.len() && v@[w].key@ == k2;
                        assert(w < n);
                        lemma_gl_idx(v@, k2, w);
                        lemma_gl_idx(oldv, k2, w);
                    }
                }
            }
        },
    }
}

/// Take value `e` out of the group under key `k`; the entry leaves the
/// list with its last value.  Nothing changes when the value was not
/// grouped there, and the return says whether it was.
fn gl_remove(v: &mut Vec<GroupEntry>, k: &String, e: &String) -> (removed: bool)
    requires
        gl_wf(old(v)@),
    ensures
        gl_wf(final(v)@),
        removed == (gl_has_key(old(v)@, k@) && gl_map(old(v)@)[k@].contains(e@)),
        removed ==> gl_map(final(v)@) =~= gl_map_after_remove(gl_map(old(v)@), k@, e@),
        !removed ==> final(v)@ == old(v)@,
{
    let found = gl_find(v, k);
    let i = match found {
        Some(i) => i,
        None => {
            return false;
        },
    };
    let present = str_vec_find(&v[i].elems, e);
    let j = match present {
        Some(j) => j,
        None => {
            proof {
                assert(!gl_map(v@)[k@].contains(e@));
            }
            return false;
        },
    };
    let ghost oldv = v@;
    let ghost oldset = gl_map(oldv)[k@];
    proof {
        assert(oldset.contains(e@));
    }
    if v[i].elems.len() == 1 {
        v.remove(i);
        proof {
            let n = oldv.len() as int;
            assert(oldv[i as int].elems.deep_view().len() == 1);
            assert(oldv[i as int].elems.deep_view()[0] == e@);
            assert forall|y: Seq<char>| oldset.remove(e@).contains(y) implies false by {
                let w = choose|w: int|
                    0 <= w < oldv[i as int].elems.deep_view().len() && oldv[
                        i as int
                    ].elems.deep_view()[w] == y;
                assert(w == 0);
            }
            assert(oldset.remove(e@) =~= Set::<Seq<char>>::empty());
            assert forall|w: int, x: int|
                0 <= w < v@.len() && 0 <= x < v@.len() && w != x implies v@[w].key@
                != v@[x].key@ by {
                let ow: int = if w < i {
                    w
                } else {
                    w + 1
                };
                let ox: int = if x < i {
                    x
                } else {
                    x + 1
                };
                assert(v@[w] == oldv[ow]);
                assert(v@[x] == oldv[ox]);
            }
            assert forall|w: int| 0 <= w < v@.len() implies (#[trigger] v@[w].elems.deep_view()).no_duplicates()
                && v@[w].elems.len() > 0 by {
                let ow: int = if w < i {
                    w
                } else {
                    w + 1
                };
                assert(v@[w] == oldv[ow]);
            }
            assert forall|k2: Seq<char>| #[trigger] gl_has_key(v@, k2) implies gl_map(
                oldv,
            ).remove(k@).dom().contains(k2) by {
                let w = choose|w: int| 0 <= w < v@.len() && v@[w].key@ == k2;
                let ow: int = if w < i {
                    w
                } else {
                    w + 1
                };
                assert(oldv[ow].key@ == k2);
                if k2 == k@ {
                    lemma_gl_idx(oldv, k@, i as int);
                    assert(ow == i);
                    assert(false);
                }
            }
            assert forall|k2: Seq<char>| gl_map(oldv).remove(k@).dom().contains(
                k2,
            ) implies #[trigger] gl_has_key(v@, k2) by {
                let w = choose|w: int| 0 <= w < oldv.len() && oldv[w].key@ == k2;
                lemma_gl_idx(oldv, k2, w);
                assert(w != i);
                let nw: int = if w < i {
                    w
                } else {
                    w - 1
                };
                assert(v@[nw].key@ == k2);
            }
            assert forall|k2: Seq<char>| #[trigger] gl_has_key(v@, k2) implies gl_map(v@)[k2]
                == gl_map(oldv).remove(k@)[k2] by {
                let w = choose|w: int| 0 <= w < v@.len() && v@[w].key@ == k2;
                lemma_gl_idx(v@, k2, w);
                let ow: int = if w < i {
                    w
                } else {
                    w + 1
                };
                assert(oldv[ow].key@ == k2);
                lemma_gl_idx(oldv, k2, ow);
            }
            assert(gl_map(v@) =~= gl_map_after_remove(gl_map(oldv), k@, e@));
        }
    } else {
        v[i].elems.remove(j);
        proof {
            let oldelems = oldv[i as int].elems.deep_view();
            let newelems = v@[i as int].elems.deep_view();
            oldv[i as int].elems@.remove_ensures(j as int);
            assert(newelems =~= oldelems.remove(j as int));
            assert(oldelems[j as int] == e@);
            lemma_remove_to_set(oldelems, j as int);
            assert(newelems.to_set() =~= oldset.remove(e@));
            assert(v@ =~= oldv.update(i as int, v@[i as int]));
            oldelems.remove_ensures(j as int);
            assert forall|w: int, x: int|
                0 <= w < newelems.len() && 0 <= x < newelems.len() && w != x implies newelems[w]
                != newelems[x] by {
                let ow: int = if w < j {
                    w
                } else {
                    w + 1
                };
                let ox: int = if x < j {
                    x
                } else {
                    x + 1
                };
                assert(newelems[w] == oldelems[ow]);
                assert(newelems[x] == oldelems[ox]);
            }
            assert(newelems.len() > 0);
            assert(newelems.to_set().contains(newelems[0]));
            assert(oldset.remove(e@) != Set::<Seq<char>>::empty());
            assert forall|w: int, x: int|
                0 <= w < v@.len() && 0 <= x < v@.len() && w != x implies v@[w].key@
                != v@[x].key@ by {
                assert(v@[w].key@ == oldv[w].key@);
                assert(v@[x].key@ == oldv[x].key@);
            }
            assert forall|k2: Seq<char>| gl_has_key(v@, k2) == gl_has_key(oldv, k2) by {
                if gl_has_key(v@, k2) {
                    let w = choose|w: int| 0 <= w < v@.len() && v@[w].key@ == k2;
                    assert(oldv[w].key@ == k2);
                }
                if gl_has_key(oldv, k2) {
                    let w = choose|w: int| 0 <= w < oldv.len() && oldv[w].key@ == k2;
                    assert(v@[w].key@ == k2);
                }
            }
            assert forall|k2: Seq<char>| #[trigger] gl_has_key(v@, k2) implies gl_map(v@)[k2]
                == gl_map(oldv).insert(k@, oldset.remove(e@))[k2] by {
                let w = choose|w: int| 0 <= w < v@.len() && v@[w].key@ == k2;
                lemma_gl_idx(v@, k2, w);
                if k2 == k@ {
                    lemma_gl_idx(v@, k@, i as int);
                } else {
                    lemma_gl_idx(oldv, k2, w);
                }
            }
            assert(gl_map(v@) =~= gl_map(oldv).insert(k@, oldset.remove(e@)));
            assert(gl_map(v@) =~= gl_map_after_remove(gl_map(oldv), k@, e@));
        }
    }
    true
}

/// The mathematical shape of the shared membership snapshot: display
/// names by session, members by room, and rooms by session.
#[verifier::ext_equal]
pub ghost struct SnapshotModel {
    pub sessions: Map<Seq<char>, Seq<char>>,
    pub rooms: Map<Seq<char>, Set<Seq<char>>>,
    pub session_rooms: Map<Seq<char>, Set<Seq<char>>>,
}

/// The snapshot before anyone has connected.
pub open spec fn empty_model() -> SnapshotModel {
    SnapshotModel {
        sessions: Map::empty(),
        rooms: Map::empty(),
        session_rooms: Map::empty(),
    }
}

/// What every reader of the snapshot may rely on: the two grouping
/// indices list one another exactly (a session is in a room's member
/// set if and only if the room is in the session's room set), no room
/// and no session is kept with an empty set, and a display name is
/// recorded for precisely the sessions that are in some room.
pub open spec fn inv(m: SnapshotModel) -> bool {
    &&& m.sessions.dom() == m.session_rooms.dom()
    &&& forall|r: Seq<char>| #[trigger]
        m.rooms.dom().contains(r) ==> m.rooms[r].finite() && m.rooms[r] != Set::<Seq<char>>::empty()
    &&& forall|s: Seq<char>| #[trigger]
        m.session_rooms.dom().contains(s) ==> m.session_rooms[s].finite() && m.session_rooms[s]
            != Set::<Seq<char>>::empty()
    &&& forall|r: Seq<char>, s: Seq<char>|
        m.rooms.dom().contains(r) && #[trigger] m.rooms[r].contains(s)
            ==> m.session_rooms.dom().contains(s) && m.session_rooms[s].contains(r)
    &&& forall|r: Seq<char>, s: Seq<char>|
        m.session_rooms.dom().contains(s) && #[trigger] m.session_rooms[s].contains(r)
            ==> m.rooms.dom().contains(r) && m.rooms[r].contains(s)
}

/// Which records the mutation accepts: an addition always, a removal
/// only of an actual member, a rename only with a name and only of a
/// known session.
pub open spec fn accepts(m: SnapshotModel, r: RecordModel) -> bool {
    match r.change_type {
        RoomChangeType::Add => true,
        RoomChangeType::Del => m.rooms.dom().contains(r.room) && m.rooms[r.room].contains(r.id),
        RoomChangeType::NameChange => r.name is Some && m.sessions.dom().contains(r.id),
    }
}

/// The display name an addition records: the one carried by the
/// record, else the name already known, else the session id itself.
pub open spec fn add_name(m: SnapshotModel, r: RecordModel) -> Seq<char> {
    match r.name {
        Some(n) => n,
        None => if m.sessions.dom().contains(r.id) {
            m.sessions[r.id]
        } else {
            r.id
        },
    }
}

/// The set under a key of a grouping map, or the empty set.
pub open spec fn set_or_empty(m: Map<Seq<char>, Set<Seq<char>>>, k: Seq<char>) -> Set<Seq<char>> {
    if m.dom().contains(k) {
        m[k]
    } else {
        Set::empty()
    }
}

/// One atomic step of the shared snapshot: the accepted record applied
/// to both grouping indices at once, a rejected record changing
/// nothing.  A removal that empties a session's room set also drops its
/// display name.
pub open spec fn step_model(m: SnapshotModel, r: RecordModel) -> SnapshotModel {
    if !accepts(m, r) {
        m
    } else {
        match r.change_type {
            RoomChangeType::Add => SnapshotModel {
                sessions: m.sessions.insert(r.id, add_name(m, r)),
                rooms: m.rooms.insert(r.room, set_or_empty(m.rooms, r.room).insert(r.id)),
                session_rooms: m.session_rooms.insert(
                    r.id,
                    set_or_empty(m.session_rooms, r.id).insert(r.room),
                ),
            },
            RoomChangeType::Del => SnapshotModel {
                sessions: if m.session_rooms[r.id].remove(r.room) == Set::<Seq<char>>::empty() {
                    m.sessions.remove(r.id)
                } else {
                    m.sessions
                },
                rooms: gl_map_after_remove(m.rooms, r.room, r.id),
                session_rooms: gl_map_after_remove(m.session_rooms, r.id, r.room),
            },
            RoomChangeType::NameChange => SnapshotModel {
                sessions: m.sessions.insert(r.id, r.name.unwrap()),
                rooms: m.rooms,
                session_rooms: m.session_rooms,
            },
        }
    }
}

/// The message a rejected record is answered with.
pub open spec fn reject_msg(m: SnapshotModel, r: RecordModel) -> Seq<char> {
    match r.change_type {
        RoomChangeType::Add => Seq::empty(),
        RoomChangeType::Del => "session is not a member of the room"@,
        RoomChangeType::NameChange => if r.name is None {
            "name is required"@
        } else {
            "unknown session"@
        },
    }
}

/// The empty snapshot satisfies the invariant.
pub proof fn lemma_empty_inv()
    ensures
        inv(empty_model()),
{
    assert(empty_model().sessions.dom() =~= empty_model().session_rooms.dom());
}

/// One step preserves the snapshot invariant: this is why no reader
/// ever observes the two grouping indices out of step.
pub proof fn lemma_step_preserves_inv(m: SnapshotModel, r: RecordModel)
    requires
        inv(m),
    ensures
        inv(step_model(m, r)),
{
    if accepts(m, r) {
        let m2 = step_model(m, r);
        match r.change_type {
            RoomChangeType::Add => {
                assert(m2.sessions.dom() =~= m2.session_rooms.dom());
                assert forall|r2: Seq<char>| #[trigger] m2.rooms.dom().contains(r2) implies m2.rooms[r2].finite()
                    && m2.rooms[r2] != Set::<Seq<char>>::empty() by {
                    if r2 == r.room {
                        assert(m2.rooms[r2].contains(r.id));
                        assert(Set::<Seq<char>>::empty().contains(r.id) == false);
                    }
                }
                assert forall|s2: Seq<char>| #[trigger] m2.session_rooms.dom().contains(s2) implies m2.session_rooms[s2].finite()
                    && m2.session_rooms[s2] != Set::<Seq<char>>::empty() by {
                    if s2 == r.id {
                        assert(m2.session_rooms[s2].contains(r.room));
                        assert(Set::<Seq<char>>::empty().contains(r.room) == false);
                    }
                }
                assert forall|r2: Seq<char>, s2: Seq<char>|
                    m2.rooms.dom().contains(r2) && #[trigger] m2.rooms[r2].contains(s2)
                        implies m2.session_rooms.dom().contains(s2) && m2.session_rooms[s2].contains(
                        r2,
                    ) by {
                    if r2 == r.room && s2 == r.id {
                    } else if r2 == r.room {
                        assert(m.rooms.dom().contains(r2) && m.rooms[r2].contains(s2));
                    } else {
                        assert(m.rooms.dom().contains(r2) && m.rooms[r2].contains(s2));
                    }
                }
                assert forall|r2: Seq<char>, s2: Seq<char>|
                    m2.session_rooms.dom().contains(s2) && #[trigger] m2.session_rooms[s2].contains(
                        r2,
                    ) implies m2.rooms.dom().contains(r2) && m2.rooms[r2].contains(s2) by {
                    if s2 == r.id && r2 == r.room {
                    } else if s2 == r.id {
                        assert(m.session_rooms.dom().contains(s2) && m.session_rooms[s2].contains(
                            r2,
                        ));
                    } else {
                        assert(m.session_rooms.dom().contains(s2) && m.session_rooms[s2].contains(
                            r2,
                        ));
                    }
                }
            },
            RoomChangeType::Del => {
                let vacated = m.rooms[r.room].remove(r.id) == Set::<Seq<char>>::empty();
                let left = m.session_rooms[r.id].remove(r.room) == Set::<Seq<char>>::empty();
                assert(m.session_rooms.dom().contains(r.id) && m.session_rooms[r.id].contains(
                    r.room,
                ));
                assert(m2.sessions.dom() =~= m2.session_rooms.dom());
                assert forall|r2: Seq<char>| #[trigger] m2.rooms.dom().contains(r2) implies m2.rooms[r2].finite()
                    && m2.rooms[r2] != Set::<Seq<char>>::empty() by {
                    if r2 == r.room {
                        assert(!vacated);
                        if !(exists|w: Seq<char>| m.rooms[r.room].remove(r.id).contains(w)) {
                            assert(m.rooms[r.room].remove(r.id) =~= Set::<Seq<char>>::empty());
                        }
                        let w = choose|w: Seq<char>| m.rooms[r.room].remove(r.id).contains(w);
                        assert(m2.rooms[r2].contains(w));
                        assert(Set::<Seq<char>>::empty().contains(w) == false);
                    } else {
                        assert(m.rooms.dom().contains(r2));
                    }
                }
                assert forall|s2: Seq<char>| #[trigger] m2.session_rooms.dom().contains(s2) implies m2.session_rooms[s2].finite()
                    && m2.session_rooms[s2] != Set::<Seq<char>>::empty() by {
                    if s2 == r.id {
                        assert(!left);
                        if !(exists|w: Seq<char>|
                            m.session_rooms[r.id].remove(r.room).contains(w)) {
                            assert(m.session_rooms[r.id].remove(r.room) =~= Set::<
                                Seq<char>,
                            >::empty());
                        }
                        let w = choose|w: Seq<char>|
                            m.session_rooms[r.id].remove(r.room).contains(w);
                        assert(m2.session_rooms[s2].contains(w));
                        assert(Set::<Seq<char>>::empty().contains(w) == false);
                    } else {
                        assert(m.session_rooms.dom().contains(s2));
                    }
                }
                assert forall|r2: Seq<char>, s2: Seq<char>|
                    m2.rooms.dom().contains(r2) && #[trigger] m2.rooms[r2].contains(s2)
                        implies m2.session_rooms.dom().contains(s2) && m2.session_rooms[s2].contains(
                        r2,
                    ) by {
                    assert(m.rooms.dom().contains(r2) && m.rooms[r2].contains(s2));
                    assert(!(r2 == r.room && s2 == r.id));
                    assert(m.session_rooms.dom().contains(s2) && m.session_rooms[s2].contains(r2));
                    if s2 == r.id {
                        assert(r2 != r.room);
                        assert(m.session_rooms[r.id].remove(r.room).contains(r2));
                        assert(!left);
                    }
                }
                assert forall|r2: Seq<char>, s2: Seq<char>|
                    m2.session_rooms.dom().contains(s2) && #[trigger] m2.session_rooms[s2].contains(
                        r2,
                    ) implies m2.rooms.dom().contains(r2) && m2.rooms[r2].contains(s2) by {
                    assert(m.session_rooms.dom().contains(s2) && m.session_rooms[s2].contains(r2));
                    assert(!(r2 == r.room && s2 == r.id));
                    assert(m.rooms.dom().contains(r2) && m.rooms[r2].contains(s2));
                    if r2 == r.room {
                        assert(s2 != r.id);
                        assert(m.rooms[r.room].remove(r.id).contains(s2));
                        assert(!vacated);
                    }
                }
            },
            RoomChangeType::NameChange => {
                assert(m2.sessions.dom() =~= m2.session_rooms.dom());
            },
        }
    }
}

/// A sequence of records applied in order, each as one atomic step.
pub open spec fn apply_records(m: SnapshotModel, rs: Seq<RecordModel>) -> SnapshotModel
    decreases rs.len(),
{
    if rs.len() == 0 {
        m
    } else {
        apply_records(step_model(m, rs[0]), rs.drop_first())
    }
}

/// Any sequence of records applied to a snapshot satisfying the
/// invariant keeps it satisfied after every step along the way.
pub proof fn lemma_apply_records_inv(m: SnapshotModel, rs: Seq<RecordModel>)
    requires
        inv(m),
    ensures
        inv(apply_records(m, rs)),
        forall|i: int| 0 <= i <= rs.len() ==> inv(apply_records(m, #[trigger] rs.take(i))),
    decreases rs.len(),
{
    if rs.len() == 0 {
        assert forall|i: int| 0 <= i <= rs.len() implies inv(
            apply_records(m, #[trigger] rs.take(i)),
        ) by {
            assert(rs.take(i) =~= Seq::<RecordModel>::empty());
        }
    } else {
        lemma_step_preserves_inv(m, rs[0]);
        lemma_apply_records_inv(step_model(m, rs[0]), rs.drop_first());
        assert forall|i: int| 0 <= i <= rs.len() implies inv(
            apply_records(m, #[trigger] rs.take(i)),
        ) by {
            if i == 0 {
                assert(rs.take(0) =~= Seq::<RecordModel>::empty());
            } else {
                assert(rs.take(i)[0] == rs[0]);
                assert(rs.take(i).drop_first() =~= rs.drop_first().take(i - 1));
            }
        }
    }
}

/// Every prefix of any record sequence applied to the initially empty
/// snapshot leaves the two grouping indices mutually consistent: no
/// reader ever observes a partial update.
pub proof fn lemma_records_from_empty_consistent(rs: Seq<RecordModel>)
    ensures
        forall|i: int|
            0 <= i <= rs.len() ==> inv(apply_records(empty_model(), #[trigger] rs.take(i))),
{
    lemma_empty_inv();
    lemma_apply_records_inv(empty_model(), rs);
}

/// Whether every record of the sequence adds a session to `room`.
pub open spec fn all_adds_to_room(rs: Seq<RecordModel>, room: Seq<char>) -> bool {
    forall|i: int|
        0 <= i < rs.len() ==> (#[trigger] rs[i]).change_type is Add && rs[i].room == room
}

/// The session ids the records speak of, in order.
pub open spec fn record_ids(rs: Seq<RecordModel>) -> Seq<Seq<char>> {
    rs.map_values(|r: RecordModel| r.id)
}

/// Additions to one room accumulate: the room ends up holding whatever
/// it held before plus every added session.
pub proof fn lemma_adds_accumulate(m: SnapshotModel, rs: Seq<RecordModel>, room: Seq<char>)
    requires
        all_adds_to_room(rs, room),
        rs.len() > 0,
    ensures
        apply_records(m, rs).rooms.dom().contains(room),
        apply_records(m, rs).rooms[room] =~= set_or_empty(m.rooms, room).union(
            record_ids(rs).to_set(),
        ),
    decreases rs.len(),
{
    let m1 = step_model(m, rs[0]);
    assert(accepts(m, rs[0]));
    assert(m1.rooms[room] =~= set_or_empty(m.rooms, room).insert(rs[0].id));
    if rs.len() == 1 {
        assert(rs.drop_first() =~= Seq::<RecordModel>::empty());
        assert(apply_records(m, rs) == apply_records(m1, Seq::<RecordModel>::empty()));
        assert(apply_records(m1, Seq::<RecordModel>::empty()) == m1);
        assert forall|y: Seq<char>| record_ids(rs).to_set().contains(y) implies y == rs[0].id by {
            let w = choose|w: int| 0 <= w < record_ids(rs).len() && record_ids(rs)[w] == y;
            assert(w == 0);
        }
        assert(record_ids(rs)[0] == rs[0].id);
        assert(record_ids(rs).to_set().contains(rs[0].id));
        assert(m1.rooms[room] =~= set_or_empty(m.rooms, room).union(record_ids(rs).to_set()));
    } else {
        let tail = rs.drop_first();
        assert(all_adds_to_room(tail, room));
        lemma_adds_accumulate(m1, tail, room);
        assert(apply_records(m, rs) == apply_records(m1, tail));
        assert(set_or_empty(m1.rooms, room) =~= set_or_empty(m.rooms, room).insert(rs[0].id));
        assert forall|y: Seq<char>| record_ids(rs).to_set().contains(y) implies set_or_empty(
            m.rooms,
            room,
        ).insert(rs[0].id).union(record_ids(tail).to_set()).contains(y) by {
            let w = choose|w: int| 0 <= w < record_ids(rs).len() && record_ids(rs)[w] == y;
            if w == 0 {
                assert(y == rs[0].id);
            } else {
                assert(record_ids(tail)[w - 1] == y);
                assert(record_ids(tail).to_set().contains(y));
            }
        }
        assert forall|y: Seq<char>| record_ids(tail).to_set().contains(y) implies record_ids(
            rs,
        ).to_set().contains(y) by {
            let w = choose|w: int| 0 <= w < record_ids(tail).len() && record_ids(tail)[w] == y;
            assert(record_ids(rs)[w + 1] == y);
        }
        assert(record_ids(rs)[0] == rs[0].id);
        assert(record_ids(rs).to_set().contains(rs[0].id));
        assert(apply_records(m, rs).rooms[room] =~= set_or_empty(m.rooms, room).union(
            record_ids(rs).to_set(),
        ));
    }
}

/// No lost updates: additions of distinct sessions to one room, applied
/// in any serialized order to a snapshot that does not yet hold the
/// room, leave the room with exactly those sessions, one per record.
pub proof fn lemma_concurrent_adds_all_land(
    m: SnapshotModel,
    rs: Seq<RecordModel>,
    room: Seq<char>,
)
    requires
        all_adds_to_room(rs, room),
        record_ids(rs).no_duplicates(),
        !m.rooms.dom().contains(room),
        rs.len() > 0,
    ensures
        apply_records(m, rs).rooms.dom().contains(room),
        apply_records(m, rs).rooms[room] =~= record_ids(rs).to_set(),
        apply_records(m, rs).rooms[room].finite(),
        apply_records(m, rs).rooms[room].len() == rs.len(),
{
    broadcast use vstd::seq_lib::seq_to_set_is_finite;

    lemma_adds_accumulate(m, rs, room);
    assert(set_or_empty(m.rooms, room) =~= Set::<Seq<char>>::empty());
    assert(apply_records(m, rs).rooms[room] =~= record_ids(rs).to_set());
    record_ids(rs).unique_seq_to_set();
    assert(record_ids(rs).len() == rs.len());
}

/// The removal records that take session `sid` out of each room of
/// `rooms_list`, in order.
pub open spec fn del_records(sid: Seq<char>, rooms_list: Seq<Seq<char>>) -> Seq<RecordModel> {
    rooms_list.map_values(
        |room: Seq<char>|
            RecordModel { id: sid, name: None, room, change_type: RoomChangeType::Del },
    )
}

/// A disconnecting session vanishes: removal records for every room the
/// session is in, applied in order, leave a snapshot in which the
/// session is a member of no room and carries no display name.
pub proof fn lemma_disconnect_removes_everywhere(
    m: SnapshotModel,
    sid: Seq<char>,
    rooms_list: Seq<Seq<char>>,
)
    requires
        inv(m),
        m.session_rooms.dom().contains(sid),
        rooms_list.no_duplicates(),
        rooms_list.to_set() =~= m.session_rooms[sid],
    ensures
        inv(apply_records(m, del_records(sid, rooms_list))),
        !apply_records(m, del_records(sid, rooms_list)).session_rooms.dom().contains(sid),
        !apply_records(m, del_records(sid, rooms_list)).sessions.dom().contains(sid),
        forall|r: Seq<char>| #[trigger]
            apply_records(m, del_records(sid, rooms_list)).rooms.dom().contains(r)
                ==> !apply_records(m, del_records(sid, rooms_list)).rooms[r].contains(sid),
    decreases rooms_list.len(),
{
    if rooms_list.len() == 0 {
        assert(m.session_rooms[sid] =~= Set::<Seq<char>>::empty());
        assert(false);
    }
    let rds = del_records(sid, rooms_list);
    let r0 = rooms_list[0];
    assert(rooms_list.to_set().contains(r0));
    assert(m.session_rooms[sid].contains(r0));
    assert(m.rooms.dom().contains(r0) && m.rooms[r0].contains(sid));
    assert(accepts(m, rds[0]));
    let m1 = step_model(m, rds[0]);
    lemma_step_preserves_inv(m, rds[0]);
    let left = m.session_rooms[sid].remove(r0);
    let tail = rooms_list.drop_first();
    assert(rds.drop_first() =~= del_records(sid, tail));
    assert(apply_records(m, rds) == apply_records(m1, rds.drop_first()));
    if rooms_list.len() == 1 {
        assert forall|y: Seq<char>| left.contains(y) implies false by {
            assert(rooms_list.to_set().contains(y));
            let w = choose|w: int| 0 <= w < rooms_list.len() && rooms_list[w] == y;
            assert(w == 0);
        }
        assert(left =~= Set::<Seq<char>>::empty());
        assert(m1.session_rooms == m.session_rooms.remove(sid));
        assert(m1.sessions == m.sessions.remove(sid));
        assert(apply_records(m1, rds.drop_first()) == m1);
        assert forall|r: Seq<char>| #[trigger] m1.rooms.dom().contains(r) implies !m1.rooms[r].contains(
            sid,
        ) by {
            if m1.rooms[r].contains(sid) {
                assert(m1.session_rooms.dom().contains(sid));
            }
        }
    } else {
        assert(tail.len() > 0);
        assert(tail[0] != r0);
        assert(rooms_list.to_set().contains(tail[0])) by {
            assert(rooms_list[1] == tail[0]);
        }
        assert(left.contains(tail[0]));
        assert(left != Set::<Seq<char>>::empty()) by {
            assert(Set::<Seq<char>>::empty().contains(tail[0]) == false);
        }
        assert(m1.session_rooms == m.session_rooms.insert(sid, left));
        assert(m1.session_rooms.dom().contains(sid));
        assert(tail.to_set() =~= left) by {
            assert forall|y: Seq<char>| tail.to_set().contains(y) implies left.contains(y) by {
                let w = choose|w: int| 0 <= w < tail.len() && tail[w] == y;
                assert(rooms_list[w + 1] == y);
                assert(y != r0);
            }
            assert forall|y: Seq<char>| left.contains(y) implies tail.to_set().contains(y) by {
                assert(rooms_list.to_set().contains(y));
                let w = choose|w: int| 0 <= w < rooms_list.len() && rooms_list[w] == y;
                assert(w != 0);
                assert(tail[w - 1] == y);
            }
        }
        lemma_disconnect_removes_everywhere(m1, sid, tail);
    }
}

/// The shared membership snapshot as the store holds it.
pub struct Snapshot {
    pub sessions: Vec<SessionEntry>,
    pub rooms: Vec<GroupEntry>,
    pub session_rooms: Vec<GroupEntry>,
}

impl View for Snapshot {
    type V = SnapshotModel;

    open spec fn view(&self) -> SnapshotModel {
        SnapshotModel {
            sessions: sl_map(self.sessions@),
            rooms: gl_map(self.rooms@),
            session_rooms: gl_map(self.session_rooms@),
        }
    }
}

impl Snapshot {
    /// The representation is in shape and the invariant holds.
    pub open spec fn wf(&self) -> bool {
        &&& sl_wf(self.sessions@)
        &&& gl_wf(self.rooms@)
        &&& gl_wf(self.session_rooms@)
        &&& inv(self@)
    }

    /// The empty snapshot.
    pub fn new() -> (s: Snapshot)
        ensures
            s.wf(),
            s@ =~= empty_model(),
    {
        let s = Snapshot { sessions: Vec::new(), rooms: Vec::new(), session_rooms: Vec::new() };
        proof {
            assert(s@.sessions =~= Map::<Seq<char>, Seq<char>>::empty());
            assert(s@.rooms =~= Map::<Seq<char>, Set<Seq<char>>>::empty());
            assert(s@.session_rooms =~= Map::<Seq<char>, Set<Seq<char>>>::empty());
            lemma_empty_inv();
        }
        s
    }

    /// Apply one membership change record as a single atomic step.
    /// Success is answered with status zero; a rejected record leaves
    /// the snapshot untouched and is answered with status one and a
    /// message saying why.
    pub fn apply_change(&mut self, req: &ChangeRoomReq) -> (resp: RoomChangeForHubResponse)
        requires
            old(self).wf(),
        ensures
            final(self).wf(),
            resp.status == 0 <==> accepts(old(self)@, req@),
            final(self)@ =~= step_model(old(self)@, req@),
            resp.status == 0 ==> resp.msg@ == Seq::<char>::empty(),
            resp.status != 0 ==> resp.status == 1 && resp.msg@ == reject_msg(old(self)@, req@),
    {
        let ghost m0 = self@;
        match req.change_type {
            RoomChangeType::Add => {
                let name: String = match &req.name {
                    Some(n) => n.clone(),
                    None => {
                        let found = sl_find(&self.sessions, &req.id);
                        match found {
                            Some(i) => {
                                let r = self.sessions[i].name.clone();
                                proof {
                                    assert(r@ == sl_map(self.sessions@)[req.id@]);
                                }
                                r
                            },
                            None => req.id.clone(),
                        }
                    },
                };
                proof {
                    assert(name@ == add_name(m0, req@));
                }
                sl_set(&mut self.sessions, &req.id, name);
                gl_add(&mut self.rooms, &req.room, &req.id);
                gl_add(&mut self.session_rooms, &req.id, &req.room);
                proof {
                    assert(gl_elems_or_empty(old(self).rooms@, req.room@) =~= set_or_empty(
                        m0.rooms,
                        req.room@,
                    ));
                    assert(gl_elems_or_empty(old(self).session_rooms@, req.id@) =~= set_or_empty(
                        m0.session_rooms,
                        req.id@,
                    ));
                    assert(self@ =~= step_model(m0, req@));
                    lemma_step_preserves_inv(m0, req@);
                }
                RoomChangeForHubResponse { status: 0, msg: String::new() }
            },
            RoomChangeType::Del => {
                let removed = gl_remove(&mut self.rooms, &req.room, &req.id);
                if !removed {
                    return RoomChangeForHubResponse {
                        status: 1,
                        msg: String::from_str("session is not a member of the room"),
                    };
                }
                proof {
                    assert(gl_has_key(old(self).rooms@, req.room@));
                    assert(m0.rooms.dom().contains(req.room@));
                    assert(m0.rooms[req.room@].contains(req.id@));
                    assert(m0.session_rooms.dom().contains(req.id@) && m0.session_rooms[
                        req.id@
                    ].contains(req.room@));
                }
                let removed2 = gl_remove(&mut self.session_rooms, &req.id, &req.room);
                proof {
                    assert(removed2);
                }
                let still = gl_find(&self.session_rooms, &req.id);
                let ghost left_set = m0.session_rooms[req.id@].remove(req.room@);
                proof {
                    if left_set == Set::<Seq<char>>::empty() {
                        assert(!gl_map(self.session_rooms@).dom().contains(req.id@));
                        assert(still is None);
                    } else {
                        assert(gl_map(self.session_rooms@).dom().contains(req.id@));
                        assert(still is Some);
                    }
                }
                match still {
                    None => {
                        sl_remove(&mut self.sessions, &req.id);
                    },
                    Some(_) => {},
                }
                proof {
                    assert(self@ =~= step_model(m0, req@));
                    lemma_step_preserves_inv(m0, req@);
                }
                RoomChangeForHubResponse { status: 0, msg: String::new() }
            },
            RoomChangeType::NameChange => {
                let name = match &req.name {
                    Some(n) => n.clone(),
                    None => {
                        return RoomChangeForHubResponse {
                            status: 1,
                            msg: String::from_str("name is required"),
                        };
                    },
                };
                let found = sl_find(&self.sessions, &req.id);
                match found {
                    Some(_) => {
                        sl_set(&mut self.sessions, &req.id, name);
                        proof {
                            assert(self@ =~= step_model(m0, req@));
                            lemma_step_preserves_inv(m0, req@);
                        }
                        RoomChangeForHubResponse { status: 0, msg: String::new() }
                    },
                    None => RoomChangeForHubResponse {
                        status: 1,
                        msg: String::from_str("unknown session"),
                    },
                }
            },
        }
    }
}

/// Whether a listed room faithfully renders the snapshot: it lists
/// exactly the room's members, each with its recorded display name.
pub open spec fn members_match(m: SnapshotModel, rv: RoomView) -> bool {
    &&& m.rooms.dom().contains(rv.room@)
    &&& forall|j: int|
        0 <= j < rv.members@.len() ==> m.rooms[rv.room@].contains(
            (#[trigger] rv.members@[j]).id@,
        ) && rv.members@[j].name@ == m.sessions[rv.members@[j].id@]
    &&& forall|s: Seq<char>| #[trigger]
        m.rooms[rv.room@].contains(s) ==> exists|j: int|
            0 <= j < rv.members@.len() && rv.members@[j].id@ == s
}

impl Snapshot {
    /// The members of the room entry at `ri`, each with its display
    /// name, in the entry's order.
    fn room_members(&self, ri: usize) -> (out: Vec<SessionEntry>)
        requires
            self.wf(),
            ri < self.rooms@.len(),
        ensures
            out@.len() == self.rooms@[ri as int].elems@.len(),
            forall|j: int|
                0 <= j < out@.len() ==> (#[trigger] out@[j]).id@ == self.rooms@[
                    ri as int
                ].elems.deep_view()[j] && out@[j].name@ == self@.sessions[out@[j].id@],
    {
        let ghost key = self.rooms@[ri as int].key@;
        proof {
            lemma_gl_idx(self.rooms@, key, ri as int);
        }
        let mut out: Vec<SessionEntry> = Vec::new();
        let n = self.rooms[ri].elems.len();
        let mut j: usize = 0;
        while j < n
            invariant
                self.wf(),
                ri < self.rooms@.len(),
                key == self.rooms@[ri as int].key@,
                gl_idx_of(self.rooms@, key) == ri,
                gl_has_key(self.rooms@, key),
                n == self.rooms@[ri as int].elems@.len(),
                j <= n,
                out@.len() == j,
                forall|w: int|
                    0 <= w < j ==> (#[trigger] out@[w]).id@ == self.rooms@[
                        ri as int
                    ].elems.deep_view()[w] && out@[w].name@ == self@.sessions[out@[w].id@],
            decreases n - j,
        {
            let elem = self.rooms[ri].elems[j].clone();
            proof {
                assert(elem@ == self.rooms@[ri as int].elems.deep_view()[j as int]);
                assert(self@.rooms[key].contains(elem@));
                assert(self@.rooms.dom().contains(key));
                assert(self@.session_rooms.dom().contains(elem@));
                assert(self@.sessions.dom().contains(elem@));
                assert(sl_has_key(self.sessions@, elem@));
            }
            let found = sl_find(&self.sessions, &elem);
            match found {
                Some(si) => {
                    let name = self.sessions[si].name.clone();
                    proof {
                        assert(name@ == self@.sessions[elem@]);
                    }
                    out.push(SessionEntry { id: elem, name });
                },
                None => {
                    proof {
                        assert(false);
                    }
                },
            }
            j += 1;
        }
        out
    }

    /// Answer a read-only projection of the snapshot: either the one
    /// named room with its members, or every room a named session is
    /// in, each with its members; an unknown key answers empty.
    pub fn retrieve_rooms(&self, req: &RetrieveRroomsReq) -> (out: UpdateRooms)
        requires
            self.wf(),
        ensures
            match req.query_type {
                RetrieveRroomsReqType::RoomID => {
                    if self@.rooms.dom().contains(req.id@) {
                        &&& out.0@.len() == 1
                        &&& out.0@[0].room@ == req.id@
                        &&& members_match(self@, out.0@[0])
                    } else {
                        out.0@.len() == 0
                    }
                },
                RetrieveRroomsReqType::SessionID => {
                    if self@.session_rooms.dom().contains(req.id@) {
                        &&& forall|k: int|
                            0 <= k < out.0@.len() ==> self@.session_rooms[req.id@].contains(
                                (#[trigger] out.0@[k]).room@,
                            ) && members_match(self@, out.0@[k])
                        &&& forall|r: Seq<char>| #[trigger]
                            self@.session_rooms[req.id@].contains(r) ==> exists|k: int|
                                0 <= k < out.0@.len() && out.0@[k].room@ == r
                    } else {
                        out.0@.len() == 0
                    }
                },
            },
    {
        match &req.query_type {
            RetrieveRroomsReqType::RoomID => {
                proof {
                    assert(req.query_type is RoomID);
                }
                let found = gl_find(&self.rooms, &req.id);
                match found {
                    None => UpdateRooms(Vec::new()),
                    Some(ri) => {
                        let members = self.room_members(ri);
                        let mut v: Vec<RoomView> = Vec::new();
                        v.push(RoomView { room: req.id.clone(), members });
                        proof {
                            let rv = v@[0];
                            let entry = self.rooms@[ri as int];
                            assert forall|s: Seq<char>| #[trigger] self@.rooms[rv.room@].contains(
                                s,
                            ) implies exists|j: int|
                                0 <= j < rv.members@.len() && rv.members@[j].id@ == s by {
                                let w = choose|w: int|
                                    0 <= w < entry.elems.deep_view().len()
                                        && entry.elems.deep_view()[w] == s;
                                assert(rv.members@[w].id@ == s);
                            }
                            assert forall|j: int| 0 <= j < rv.members@.len() implies self@.rooms[
                                rv.room@
                            ].contains((#[trigger] rv.members@[j]).id@) by {
                                assert(entry.elems.deep_view()[j] == rv.members@[j].id@);
                            }
                        }
                        UpdateRooms(v)
                    },
                }
            },
            RetrieveRroomsReqType::SessionID => {
                proof {
                    assert(req.query_type is SessionID);
                }
                let found = gl_find(&self.session_rooms, &req.id);
                match found {
                    None => UpdateRooms(Vec::new()),
                    Some(i) => {
                        let mut v: Vec<RoomView> = Vec::new();
                        let n = self.session_rooms[i].elems.len();
                        let ghost sid = req.id@;
                        let ghost srentry = self.session_rooms@[i as int];
                        let mut j: usize = 0;
                        while j < n
                            invariant
                                self.wf(),
                                i < self.session_rooms@.len(),
                                srentry == self.session_rooms@[i as int],
                                srentry.key@ == sid,
                                gl_idx_of(self.session_rooms@, sid) == i,
                                gl_has_key(self.session_rooms@, sid),
                                n == srentry.elems@.len(),
                                j <= n,
                                v@.len() == j,
                                forall|k: int|
                                    0 <= k < j ==> (#[trigger] v@[k]).room@
                                        == srentry.elems.deep_view()[k] && members_match(
                                        self@,
                                        v@[k],
                                    ),
                            decreases n - j,
                        {
                            let room_name = self.session_rooms[i].elems[j].clone();
                            proof {
                                assert(room_name@ == srentry.elems.deep_view()[j as int]);
                                assert(self@.session_rooms[sid].contains(room_name@));
                                assert(self@.session_rooms.dom().contains(sid));
                                assert(self@.rooms.dom().contains(room_name@));
                                assert(gl_has_key(self.rooms@, room_name@));
                            }
                            let rfound = gl_find(&self.rooms, &room_name);
                            match rfound {
                                Some(ri) => {
                                    let members = self.room_members(ri);
                                    v.push(RoomView { room: room_name, members });
                                    proof {
                                        let rv = v@[j as int];
                                        let entry = self.rooms@[ri as int];
                                        assert forall|s: Seq<char>| #[trigger] self@.rooms[
                                            rv.room@
                                        ].contains(s) implies exists|w: int|
                                            0 <= w < rv.members@.len() && rv.members@[w].id@
                                                == s by {
                                            let w = choose|w: int|
                                                0 <= w < entry.elems.deep_view().len()
                                                    && entry.elems.deep_view()[w] == s;
                                            assert(rv.members@[w].id@ == s);
                                        }
                                        assert forall|w: int|
                                            0 <= w < rv.members@.len() implies self@.rooms[
                                            rv.room@
                                        ].contains((#[trigger] rv.members@[w]).id@) by {
                                            assert(entry.elems.deep_view()[w] == rv.members@[w].id@);
                                        }
                                        assert(members_match(self@, rv));
                                    }
                                },
                                None => {
                                    proof {
                                        assert(false);
                                    }
                                },
                            }
                            j += 1;
                        }
                        let result = UpdateRooms(v);
                        proof {
                            assert forall|r: Seq<char>| #[trigger] self@.session_rooms[
                                sid
                            ].contains(r) implies exists|k: int|
                                0 <= k < result.0@.len() && result.0@[k].room@ == r by {
                                let w = choose|w: int|
                                    0 <= w < srentry.elems.deep_view().len()
                                        && srentry.elems.deep_view()[w] == r;
                                assert(result.0@[w].room@ == r);
                            }
                        }
                        result
                    },
                }
            },
        }
    }
}

/// The removal records of one grouping entry: its key as the room, one
/// record per grouped session.
pub open spec fn entry_del_records(e: GroupEntry) -> Seq<RecordModel> {
    e.elems.deep_view().map_values(
        |sid: Seq<char>|
            RecordModel { id: sid, name: None, room: e.key@, change_type: RoomChangeType::Del },
    )
}

/// The removal records of a whole local room-to-sessions table, entry
/// by entry.
pub open spec fn group_del_records(s: Seq<GroupEntry>) -> Seq<RecordModel>
    decreases s.len(),
{
    if s.len() == 0 {
        Seq::empty()
    } else {
        entry_del_records(s[0]) + group_del_records(s.drop_first())
    }
}

/// Record derivation distributes over concatenation of tables.
proof fn lemma_group_del_records_append(a: Seq<GroupEntry>, b: Seq<GroupEntry>)
    ensures
        group_del_records(a + b) == group_del_records(a) + group_del_records(b),
    decreases a.len(),
{
    if a.len() == 0 {
        assert(a + b =~= b);
        assert(group_del_records(a) =~= Seq::<RecordModel>::empty());
        assert(group_del_records(a) + group_del_records(b) =~= group_del_records(b));
    } else {
        assert((a + b)[0] == a[0]);
        assert((a + b).len() > 0);
        assert((a + b).drop_first() =~= a.drop_first() + b);
        lemma_group_del_records_append(a.drop_first(), b);
        assert(entry_del_records(a[0]) + (group_del_records(a.drop_first()) + group_del_records(b))
            =~= (entry_del_records(a[0]) + group_del_records(a.drop_first())) + group_del_records(
            b,
        ));
    }
}

/// The removal records that clear a local room-to-sessions table out of
/// the shared snapshot: one removal per (room, session) pair, in table
/// order.  This is what a process hands the store when it shuts down,
/// so that none of its sessions stays visible to the survivors.
pub fn clean_records(rooms: &Vec<GroupEntry>) -> (out: Vec<ChangeRoomReq>)
    ensures
        out@.map_values(|c: ChangeRoomReq| c@) =~= group_del_records(rooms@),
{
    let mut out: Vec<ChangeRoomReq> = Vec::new();
    let mut i: usize = 0;
    while i < rooms.len()
        invariant
            i <= rooms@.len(),
            out@.map_values(|c: ChangeRoomReq| c@) =~= group_del_records(rooms@.take(i as int)),
        decreases rooms@.len() - i,
    {
        let ghost prev = out@.map_values(|c: ChangeRoomReq| c@);
        let n = rooms[i].elems.len();
        let mut j: usize = 0;
        while j < n
            invariant
                i < rooms@.len(),
                j <= n,
                n == rooms@[i as int].elems@.len(),
                out@.map_values(|c: ChangeRoomReq| c@) =~= prev + entry_del_records(
                    rooms@[i as int],
                ).take(j as int),
            decreases n - j,
        {
            let req = ChangeRoomReq {
                id: rooms[i].elems[j].clone(),
                name: None,
                room: rooms[i].key.clone(),
                change_type: RoomChangeType::Del,
            };
            proof {
                assert(req@ == entry_del_records(rooms@[i as int])[j as int]);
                assert(out@.push(req).map_values(|c: ChangeRoomReq| c@) =~= out@.map_values(
                    |c: ChangeRoomReq| c@,
                ).push(req@));
                assert(entry_del_records(rooms@[i as int]).take(j + 1) =~= entry_del_records(
                    rooms@[i as int],
                ).take(j as int).push(req@));
            }
            out.push(req);
            j += 1;
        }
        proof {
            let e = rooms@[i as int];
            assert(entry_del_records(e).take(n as int) =~= entry_del_records(e));
            assert(rooms@.take(i + 1) =~= rooms@.take(i as int) + seq![e]);
            lemma_group_del_records_append(rooms@.take(i as int), seq![e]);
            assert(seq![e].drop_first() =~= Seq::<GroupEntry>::empty());
            assert(seq![e][0] == e);
            assert(group_del_records(seq![e]) == entry_del_records(e) + group_del_records(
                Seq::<GroupEntry>::empty(),
            ));
            assert(group_del_records(Seq::<GroupEntry>::empty()) =~= Seq::<RecordModel>::empty());
            assert(entry_del_records(e) + Seq::<RecordModel>::empty() =~= entry_del_records(e));
            assert(out@.map_values(|c: ChangeRoomReq| c@) =~= group_del_records(
                rooms@.take(i + 1),
            ));
        }
        i += 1;
    }
    proof {
        assert(rooms@.take(rooms@.len() as int) =~= rooms@);
    }
    out
}

} // verus!
