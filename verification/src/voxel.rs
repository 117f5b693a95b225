//! Grouping of points by voxel for voxel down-sampling, in the iteration
//! order of the voxel map.

use vstd::prelude::*;
use crate::stdhash::{
    bucket_insert, can_grow, entry_keys, keys_unique, grow_plan, grown_entries, has_key, lemma_can_grow_mono,
    lemma_insert_then_lookup, StdUnorderedMap,
};

verus! {

/// The id of the group of voxel `k` among the entries `e`.
pub open spec fn group_id(e: Seq<([i32; 3], usize)>, k: [i32; 3]) -> usize {
    choose|id: usize| e.contains((k, id))
}

/// After the first `i` points: the voxel map's entries (each voxel with the
/// id of its group), its bucket count and resize threshold, and the groups
/// (point positions in order), numbered in order of first appearance.
pub open spec fn voxel_state(keys: Seq<[i32; 3]>, i: nat) -> (Seq<([i32; 3], usize)>, nat, nat, Seq<Seq<usize>>)
    decreases i,
{
    if i == 0 {
        (seq![], 1, 0, seq![])
    } else {
        let s = voxel_state(keys, (i - 1) as nat);
        let k = keys[i - 1];
        if has_key(s.0, k) {
            let id = group_id(s.0, k) as int;
            (s.0, s.1, s.2, s.3.update(id, s.3[id].push((i - 1) as usize)))
        } else {
            let plan = grow_plan(s.0.len(), s.1, s.2);
            (
                bucket_insert(grown_entries(s.0, s.1, s.2), k, s.3.len() as usize, plan.1),
                plan.1,
                plan.2,
                s.3.push(seq![(i - 1) as usize]),
            )
        }
    }
}

/// The groups of points of each voxel, in the iteration order of the
/// voxel map after all points were added.
pub open spec fn voxel_groups_spec(keys: Seq<[i32; 3]>) -> Seq<Seq<usize>> {
    let s = voxel_state(keys, keys.len());
    s.0.map_values(|p: ([i32; 3], usize)| s.3[p.1 as int])
}

/// The positions of the points of each voxel (given by `keys[i]` for point
/// `i`), voxel by voxel in the order `voxel_down_sample` visits them.
pub fn voxel_groups(keys: &[[i32; 3]]) -> (groups: Vec<Vec<usize>>)
    requires
        can_grow(keys@.len() as nat),
    ensures
        groups@.map_values(|g: Vec<usize>| g@) == voxel_groups_spec(keys@),
        keys_unique(entry_keys(voxel_state(keys@, keys@.len() as nat).0)),
{
    let mut map: StdUnorderedMap<usize> = StdUnorderedMap::new();
    let mut groups: Vec<Vec<usize>> = Vec::new();
    let mut i: usize = 0;
    proof {
        assert(groups@.map_values(|g: Vec<usize>| g@) =~= Seq::<Seq<usize>>::empty());
    }
    while i < keys.len()
        invariant
            i <= keys@.len(),
            can_grow(keys@.len() as nat),
            map.wf(),
            map.entries() == voxel_state(keys@, i as nat).0,
            map.bucket_count_spec() == voxel_state(keys@, i as nat).1,
            map.next_resize_spec() == voxel_state(keys@, i as nat).2,
            groups@.map_values(|g: Vec<usize>| g@) == voxel_state(keys@, i as nat).3,
            map.entries().len() == groups@.len(),
            map.entries().len() <= i,
            forall|p: int| 0 <= p < map.entries().len() ==> #[trigger] map.entries()[p].1 < groups@.len(),
        decreases keys@.len() - i,
    {
        let k = keys[i];
        let ghost s = voxel_state(keys@, i as nat);
        let ghost e = map.entries();
        proof {
            map.lemma_keys_unique();
        }
        match map.get(&k) {
            Some(idr) => {
                let id = *idr;
                proof {
                    let p = choose|p: int| 0 <= p < e.len() && #[trigger] e[p] == (k, id);
                    assert(e[p].0 == k);
                    assert(has_key(e, k));
                    assert(e.contains((k, id)));
                    let gid = group_id(e, k);
                    assert(e.contains((k, gid)));
                    let q = choose|q: int| 0 <= q < e.len() && e[q] == (k, gid);
                    if q != p {
                        assert(crate::stdhash::entry_keys(e)[p] == crate::stdhash::entry_keys(e)[q]);
                    }
                    assert(gid == id);
                    assert(map.entries()[p].1 < groups@.len());
                }
                let ghost before = groups@;
                let mut g = groups.remove(id);
                g.push(i);
                groups.insert(id, g);
                proof {
                    assert(groups@ =~= before.update(id as int, g));
                    assert(groups@.map_values(|g: Vec<usize>| g@) =~= s.3.update(
                        id as int,
                        s.3[id as int].push(i),
                    ));
                }
            },
            None => {
                proof {
                    assert(!has_key(e, k)) by {
                        if has_key(e, k) {
                            let p = choose|p: int| 0 <= p < e.len() && #[trigger] e[p].0 == k;
                            assert(e[p].0 == k);
                        }
                    }
                    lemma_can_grow_mono(e.len(), keys@.len() as nat);
                    lemma_insert_then_lookup(e, k, groups@.len() as usize, map.bucket_count_spec(), map.next_resize_spec());
                }
                let id = groups.len();
                let ghost before = groups@;
                map.insert(k, id);
                let mut g: Vec<usize> = Vec::new();
                g.push(i);
                groups.push(g);
                proof {
                    assert(groups@.map_values(|g: Vec<usize>| g@) =~= s.3.push(seq![i]));
                    assert forall|p: int| 0 <= p < map.entries().len() implies #[trigger] map.entries()[p].1
                        < groups@.len() by {
                        let y = map.entries()[p];
                        assert(map.entries().contains(y));
                        if y != (k, id) {
                            assert(e.contains(y));
                            let q = choose|q: int| 0 <= q < e.len() && e[q] == y;
                            assert(e[q].1 < before.len());
                        }
                    }
                }
            },
        }
        i += 1;
    }
    let ghost s = voxel_state(keys@, keys@.len() as nat);
    proof {
        map.lemma_keys_unique();
    }
    let mut out: Vec<Vec<usize>> = Vec::new();
    let mut it = map.iter();
    let ghost all = map.entries();
    let ghost mut done: nat = 0;
    proof {
        assert(all.skip(0) =~= all);
        assert(out@.map_values(|g: Vec<usize>| g@) =~= all.take(0).map_values(
            |p: ([i32; 3], usize)| s.3[p.1 as int],
        ));
    }
    loop
        invariant
            it.wf(),
            all == s.0,
            groups@.map_values(|g: Vec<usize>| g@) == s.3,
            forall|p: int| 0 <= p < all.len() ==> #[trigger] all[p].1 < groups@.len(),
            done <= all.len(),
            it.remaining() == all.skip(done as int),
            out@.map_values(|g: Vec<usize>| g@) == all.take(done as int).map_values(
                |p: ([i32; 3], usize)| s.3[p.1 as int],
            ),
        ensures
            done == all.len(),
            out@.map_values(|g: Vec<usize>| g@) == all.take(done as int).map_values(
                |p: ([i32; 3], usize)| s.3[p.1 as int],
            ),
        decreases all.len() - done,
    {
        match it.next() {
            None => {
                break;
            },
            Some((_k, idr)) => {
                let id = *idr;
                proof {
                    assert(all.skip(done as int)[0] == all[done as int]);
                    assert(all[done as int].1 == id);
                }
                let g = vstd::slice::slice_to_vec(groups[id].as_slice());
                let ghost before = out@;
                out.push(g);
                proof {
                    assert(groups@.map_values(|g: Vec<usize>| g@)[id as int] == groups@[id as int]@);
                    assert(g@ == s.3[id as int]);
                    assert(all.take(done + 1 as int) =~= all.take(done as int).push(all[done as int]));
                    assert(out@ =~= before.push(g));
                    assert(out@.map_values(|g: Vec<usize>| g@) =~= before.map_values(|g: Vec<usize>| g@).push(
                        g@,
                    ));
                    assert(all.take(done + 1 as int).map_values(|p: ([i32; 3], usize)| s.3[p.1 as int])
                        =~= all.take(done as int).map_values(|p: ([i32; 3], usize)| s.3[p.1 as int]).push(
                        s.3[id as int],
                    ));
                    assert(out@.map_values(|g: Vec<usize>| g@) =~= all.take(done + 1 as int).map_values(
                        |p: ([i32; 3], usize)| s.3[p.1 as int],
                    ));
                    assert(all.skip(done as int).drop_first() =~= all.skip(done + 1 as int));
                    done = done + 1;
                }
            },
        }
    }
    proof {
        assert(all.take(done as int) =~= all);
    }
    out
}

/// The positions, in order, of the points among the first `i` whose voxel is `k`.
pub open spec fn positions_of(keys: Seq<[i32; 3]>, i: nat, k: [i32; 3]) -> Seq<usize>
    decreases i,
{
    if i == 0 {
        seq![]
    } else if keys[i - 1] == k {
        positions_of(keys, (i - 1) as nat, k).push((i - 1) as usize)
    } else {
        positions_of(keys, (i - 1) as nat, k)
    }
}

/// What the voxel map and the groups hold after the first `i` points: each
/// listed voxel's group holds the positions of its points, the listed voxels
/// are those seen, and no voxel or group id is listed twice.
pub open spec fn voxel_inv(keys: Seq<[i32; 3]>, i: nat) -> bool {
    let s = voxel_state(keys, i);
    &&& s.0.len() == s.3.len()
    &&& s.3.len() <= i
    &&& forall|y: ([i32; 3], usize)|
        #[trigger] s.0.contains(y) ==> y.1 < s.3.len() && s.3[y.1 as int] == positions_of(keys, i, y.0)
    &&& forall|k: [i32; 3]| has_key(s.0, k) <==> #[trigger] positions_of(keys, i, k).len() > 0
    &&& forall|y1: ([i32; 3], usize), y2: ([i32; 3], usize)|
        #[trigger] s.0.contains(y1) && #[trigger] s.0.contains(y2) && (y1.0 == y2.0 || y1.1 == y2.1) ==> y1 == y2
}

proof fn lemma_has_key_contains(e: Seq<([i32; 3], usize)>, k: [i32; 3])
    ensures
        has_key(e, k) <==> exists|id: usize| #[trigger] e.contains((k, id)),
{
    if has_key(e, k) {
        let p = choose|p: int| 0 <= p < e.len() && #[trigger] e[p].0 == k;
        assert(e.contains((k, e[p].1)));
    }
    if exists|id: usize| #[trigger] e.contains((k, id)) {
        let id = choose|id: usize| #[trigger] e.contains((k, id));
        let p = choose|p: int| 0 <= p < e.len() && e[p] == (k, id);
        assert(e[p].0 == k);
    }
}

proof fn lemma_voxel_inv(keys: Seq<[i32; 3]>, i: nat)
    requires
        i <= keys.len() <= usize::MAX,
    ensures
        voxel_inv(keys, i),
    decreases i,
{
    if i == 0 {
        assert forall|k: [i32; 3]| has_key(voxel_state(keys, 0).0, k) <==> #[trigger] positions_of(keys, 0, k).len() > 0 by {
        }
    } else {
        let j = (i - 1) as nat;
        lemma_voxel_inv(keys, j);
        let s = voxel_state(keys, j);
        let t = voxel_state(keys, i);
        let k = keys[j as int];
        assert forall|q: [i32; 3]| q != k implies #[trigger] positions_of(keys, i, q) == positions_of(keys, j, q) by {}
        assert(positions_of(keys, i, k) == positions_of(keys, j, k).push(j as usize));
        lemma_has_key_contains(s.0, k);
        if has_key(s.0, k) {
            let id = group_id(s.0, k);
            assert(s.0.contains((k, id)));
            assert forall|y: ([i32; 3], usize)| #[trigger] t.0.contains(y) implies y.1 < t.3.len() && t.3[y.1 as int]
                == positions_of(keys, i, y.0) by {
                assert(s.0.contains(y));
                if y.1 == id {
                    assert(y == (k, id));
                } else if y.0 == k {
                    assert(y == (k, id));
                }
            }
            assert forall|q: [i32; 3]| has_key(t.0, q) <==> #[trigger] positions_of(keys, i, q).len() > 0 by {
                if q != k {
                    assert(positions_of(keys, i, q) == positions_of(keys, j, q));
                }
            }
        } else {
            let plan = grow_plan(s.0.len(), s.1, s.2);
            let newid = s.3.len() as usize;
            lemma_insert_then_lookup(s.0, k, newid, s.1, s.2);
            assert(positions_of(keys, j, k).len() == 0);
            assert(positions_of(keys, j, k) =~= Seq::<usize>::empty());
            assert forall|y: ([i32; 3], usize)| #[trigger] t.0.contains(y) implies y.1 < t.3.len() && t.3[y.1 as int]
                == positions_of(keys, i, y.0) by {
                if y != (k, newid) {
                    assert(s.0.contains(y));
                    lemma_has_key_contains(s.0, y.0);
                    if y.0 == k {
                        assert(has_key(s.0, k));
                    }
                    assert(t.3[y.1 as int] == s.3[y.1 as int]);
                } else {
                    assert(positions_of(keys, i, k) =~= seq![j as usize]);
                }
            }
            assert forall|q: [i32; 3]| has_key(t.0, q) <==> #[trigger] positions_of(keys, i, q).len() > 0 by {
                lemma_has_key_contains(t.0, q);
                lemma_has_key_contains(s.0, q);
                if q == k {
                    assert(t.0.contains((k, newid)));
                } else {
                    assert(positions_of(keys, i, q) == positions_of(keys, j, q));
                    if has_key(t.0, q) {
                        let id2 = choose|id2: usize| #[trigger] t.0.contains((q, id2));
                        assert(s.0.contains((q, id2)));
                    }
                    if has_key(s.0, q) {
                        let id2 = choose|id2: usize| #[trigger] s.0.contains((q, id2));
                        assert(t.0.contains((q, id2)));
                    }
                }
            }
            assert forall|y1: ([i32; 3], usize), y2: ([i32; 3], usize)|
                #[trigger] t.0.contains(y1) && #[trigger] t.0.contains(y2) && (y1.0 == y2.0 || y1.1 == y2.1) implies y1
                == y2 by {
                if y1 != (k, newid) && y2 != (k, newid) {
                    assert(s.0.contains(y1) && s.0.contains(y2));
                } else if y1 == (k, newid) && y2 != (k, newid) {
                    assert(s.0.contains(y2));
                    lemma_has_key_contains(s.0, y2.0);
                } else if y2 == (k, newid) && y1 != (k, newid) {
                    assert(s.0.contains(y1));
                    lemma_has_key_contains(s.0, y1.0);
                }
            }
        }
    }
}

/// Voxel grouping partitions the points: each listed voxel's group holds, in
/// order, exactly the points in that voxel, and every point's voxel is listed.
pub proof fn lemma_voxel_groups_partition(keys: Seq<[i32; 3]>)
    requires
        keys.len() <= usize::MAX,
    ensures
        ({
            let e = voxel_state(keys, keys.len()).0;
            &&& voxel_groups_spec(keys).len() == e.len()
            &&& forall|p: int|
                0 <= p < e.len() ==> #[trigger] voxel_groups_spec(keys)[p] == positions_of(keys, keys.len(), e[p].0)
            &&& forall|i: int| 0 <= i < keys.len() ==> has_key(e, #[trigger] keys[i])
            &&& forall|p: int| 0 <= p < e.len() ==> #[trigger] positions_of(keys, keys.len(), e[p].0).len() > 0
        }),
{
    let n = keys.len();
    lemma_voxel_inv(keys, n);
    let s = voxel_state(keys, n);
    assert forall|p: int| 0 <= p < s.0.len() implies #[trigger] voxel_groups_spec(keys)[p] == positions_of(keys, n, s.0[p].0) by {
        assert(s.0.contains(s.0[p]));
    }
    assert forall|i: int| 0 <= i < n implies has_key(s.0, #[trigger] keys[i]) by {
        lemma_positions_nonempty(keys, n, i);
    }
    assert forall|p: int| 0 <= p < s.0.len() implies #[trigger] positions_of(keys, n, s.0[p].0).len() > 0 by {
        assert(s.0[p].0 == s.0[p].0);
        assert(has_key(s.0, s.0[p].0));
    }
}

proof fn lemma_positions_nonempty(keys: Seq<[i32; 3]>, n: nat, i: int)
    requires
        0 <= i < n <= keys.len(),
    ensures
        positions_of(keys, n, keys[i]).len() > 0,
    decreases n,
{
    if i < n - 1 {
        lemma_positions_nonempty(keys, (n - 1) as nat, i);
    }
}

} // verus!
