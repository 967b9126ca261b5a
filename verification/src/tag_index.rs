//! The engine's tag index: for each (lowercase) tag field, each value, the
//! set of row ids carrying it; the set of all row ids; and the vector
//! dimension that the rows share.
//!
//! The rows themselves, with their `f32` vectors and the vector search over
//! them, are kept by the application.
use vstd::prelude::*;

use roaring::RoaringBitmap;

use crate::bitmap::{bitmap_members, bm_clone, bm_insert, bm_is_empty, bm_new, bm_remove, bm_union_with};
use crate::skg::{chars_le, seq_le, seq_le_total, seq_le_transitive};
use crate::terms::TermTable;
use crate::text::{chars_of, parse_unsigned, parse_unsigned_spec, str_lowercase, to_lowercase};

verus! {

/// The abstract tag index: field → value → ids.
pub type TagMap = Map<Seq<char>, Map<Seq<char>, Set<u32>>>;

/// The ids under a value, as sets.
pub open spec fn value_sets(t: Map<Seq<char>, RoaringBitmap>) -> Map<Seq<char>, Set<u32>> {
    t.map_values(|b: RoaringBitmap| bitmap_members(b))
}

/// The abstract state of a tag index.
pub struct TagIndexView {
    pub tags: TagMap,
    pub all: Set<u32>,
    pub vector_dim: Option<usize>,
}

/// The values of a field, empty where the field has none.
pub open spec fn values_of(idx: TagMap, f: Seq<char>) -> Map<Seq<char>, Set<u32>> {
    if idx.contains_key(f) {
        idx[f]
    } else {
        Map::empty()
    }
}

/// The ids under a value, empty where there are none.
pub open spec fn ids_of(vals: Map<Seq<char>, Set<u32>>, v: Seq<char>) -> Set<u32> {
    if vals.contains_key(v) {
        vals[v]
    } else {
        Set::empty()
    }
}

/// The index with `id` under value `v` of field `f`.
pub open spec fn tag_added(idx: TagMap, f: Seq<char>, v: Seq<char>, id: u32) -> TagMap {
    let vals = values_of(idx, f);
    idx.insert(f, vals.insert(v, ids_of(vals, v).insert(id)))
}

/// The index without `id` under value `v` of field `f`: a value left with no
/// ids goes, and so does a field left with no values.
pub open spec fn tag_removed(idx: TagMap, f: Seq<char>, v: Seq<char>, id: u32) -> TagMap {
    if idx.contains_key(f) {
        let vals = idx[f];
        let vals2 = if vals.contains_key(v) {
            if vals[v].remove(id) == Set::<u32>::empty() {
                vals.remove(v)
            } else {
                vals.insert(v, vals[v].remove(id))
            }
        } else {
            vals
        };
        if vals2 == Map::<Seq<char>, Set<u32>>::empty() {
            idx.remove(f)
        } else {
            idx.insert(f, vals2)
        }
    } else {
        idx
    }
}

/// The index after adding `id` under each (field, value) of `tags`, the
/// field lowercased.
pub open spec fn tags_added(idx: TagMap, tags: Seq<(Seq<char>, Seq<char>)>, id: u32) -> TagMap
    decreases tags.len(),
{
    if tags.len() == 0 {
        idx
    } else {
        tag_added(tags_added(idx, tags.drop_last(), id), str_lowercase(tags.last().0), tags.last().1, id)
    }
}

/// The index after removing `id` under each (field, value) of `tags`, the
/// field lowercased.
pub open spec fn tags_removed(idx: TagMap, tags: Seq<(Seq<char>, Seq<char>)>, id: u32) -> TagMap
    decreases tags.len(),
{
    if tags.len() == 0 {
        idx
    } else {
        tag_removed(tags_removed(idx, tags.drop_last(), id), str_lowercase(tags.last().0), tags.last().1, id)
    }
}

/// The characters of each tag's field and value.
pub open spec fn tag_views(tags: Seq<(String, String)>) -> Seq<(Seq<char>, Seq<char>)> {
    tags.map_values(|p: (String, String)| (p.0@, p.1@))
}

/// Whether `n` lies within the optional bounds.
pub open spec fn in_range(n: nat, low: Option<u32>, high: Option<u32>, incl_low: bool, incl_high: bool) -> bool {
    &&& match low {
        None => true,
        Some(lo) => if incl_low { n >= lo } else { n > lo },
    }
    &&& match high {
        None => true,
        Some(hi) => if incl_high { n <= hi } else { n < hi },
    }
}

/// The ids under the values of a field that read as a `u32` within the
/// bounds; values that do not read as a `u32` are skipped.
pub open spec fn range_ids(
    vals: Map<Seq<char>, Set<u32>>,
    low: Option<u32>,
    high: Option<u32>,
    incl_low: bool,
    incl_high: bool,
) -> Set<u32> {
    Set::new(
        |m: u32|
            exists|v: Seq<char>|
                #[trigger] vals.contains_key(v) && (parse_unsigned_spec(v, u32::MAX as nat) matches Some(n)
                    && in_range(n, low, high, incl_low, incl_high)) && vals[v].contains(m),
    )
}

/// Whether some string of `s` has the characters `k`.
pub open spec fn holds_view(s: Seq<String>, k: Seq<char>) -> bool {
    exists|i: int| 0 <= i < s.len() && s[i]@ == k
}

/// Strings in strictly increasing order.
pub open spec fn strictly_sorted(s: Seq<String>) -> bool {
    forall|i: int, j: int| 0 <= i < j < s.len() ==> seq_le(s[i]@, s[j]@) && s[i]@ != s[j]@
}

/// Sorts strings that are pairwise different.
fn sort_distinct(keys: Vec<String>) -> (r: Vec<String>)
    requires
        forall|i: int, j: int| 0 <= i < keys@.len() && 0 <= j < keys@.len() && i != j ==> keys@[i]@ != keys@[j]@,
    ensures
        strictly_sorted(r@),
        r@.len() == keys@.len(),
        forall|k: Seq<char>| #[trigger] holds_view(r@, k) <==> holds_view(keys@, k),
{
    let mut out: Vec<String> = Vec::new();
    let mut i: usize = 0;
    while i < keys.len()
        invariant
            i <= keys@.len(),
            forall|a: int, b: int| 0 <= a < keys@.len() && 0 <= b < keys@.len() && a != b ==> keys@[a]@ != keys@[b]@,
            strictly_sorted(out@),
            out@.len() == i,
            forall|k: Seq<char>| #[trigger] holds_view(out@, k) <==> holds_view(keys@.take(i as int), k),
        decreases keys.len() - i,
    {
        let key = keys[i].clone();
        let kc = chars_of(key.as_str());
        proof {
            let s0 = keys@.take(i as int);
            assert forall|q: int| 0 <= q < out@.len() implies out@[q]@ != key@ by {
                if out@[q]@ == key@ {
                    assert(holds_view(out@, key@));
                    let a = choose|a: int| #![auto] 0 <= a < s0.len() && s0[a]@ == key@;
                    assert(keys@[a]@ == key@);
                }
            }
        }
        let mut p: usize = 0;
        let mut stop = false;
        while p < out.len() && !stop
            invariant
                p <= out@.len(),
                kc@ == key@,
                forall|q: int| 0 <= q < p ==> seq_le(#[trigger] out@[q]@, key@),
                stop ==> p < out@.len() && !seq_le(out@[p as int]@, key@),
            decreases out@.len() - p + (if stop { 0int } else { 1int }),
        {
            let oc = chars_of(out[p].as_str());
            if chars_le(oc.as_slice(), kc.as_slice()) {
                p = p + 1;
            } else {
                stop = true;
            }
        }
        let ghost before = out@;
        out.insert(p, key);
        proof {
            let s0 = keys@.take(i as int);
            let s1 = keys@.take(i + 1);
            assert(out@ == before.insert(p as int, key));
            assert forall|a: int, b: int| 0 <= a < b < out@.len() implies seq_le(out@[a]@, out@[b]@)
                && out@[a]@ != out@[b]@ by {
                if b < p {
                } else if a < p && b == p {
                } else if a < p {
                    assert(out@[b] == before[b - 1]);
                    assert(seq_le(before[a]@, key@));
                    seq_le_total(key@, before[p as int]@);
                    if b - 1 > p {
                        assert(seq_le(before[p as int]@, before[b - 1]@));
                        seq_le_transitive(key@, before[p as int]@, before[b - 1]@);
                    }
                    seq_le_transitive(before[a]@, key@, before[b - 1]@);
                    assert(before[a]@ != before[b - 1]@);
                } else if a == p {
                    seq_le_total(key@, before[p as int]@);
                    if b - 1 > p {
                        assert(seq_le(before[p as int]@, before[b - 1]@));
                        seq_le_transitive(key@, before[p as int]@, before[b - 1]@);
                    }
                } else {
                    assert(out@[a] == before[a - 1]);
                    assert(out@[b] == before[b - 1]);
                }
            }
            assert forall|k: Seq<char>| #[trigger] holds_view(out@, k) <==> holds_view(s1, k) by {
                if holds_view(out@, k) {
                    let a = choose|a: int| 0 <= a < out@.len() && out@[a]@ == k;
                    if a < p {
                        assert(before[a]@ == k);
                        assert(holds_view(before, k));
                        let b = choose|b: int| #![auto] 0 <= b < s0.len() && s0[b]@ == k;
                        assert(s1[b]@ == k);
                    } else if a > p {
                        assert(before[a - 1]@ == k);
                        assert(holds_view(before, k));
                        let b = choose|b: int| #![auto] 0 <= b < s0.len() && s0[b]@ == k;
                        assert(s1[b]@ == k);
                    } else {
                        assert(s1[i as int]@ == k);
                    }
                }
                if holds_view(s1, k) {
                    let a = choose|a: int| #![auto] 0 <= a < s1.len() && s1[a]@ == k;
                    assert(keys@[a]@ == k);
                    if a < i {
                        assert(s0[a]@ == k);
                        assert(holds_view(s0, k));
                        assert(holds_view(before, k));
                        let q = choose|q: int| 0 <= q < before.len() && before[q]@ == k;
                        if q < p {
                            assert(out@[q]@ == k);
                        } else {
                            assert(out@[q + 1]@ == k);
                        }
                    } else {
                        assert(out@[p as int]@ == k);
                    }
                    assert(holds_view(out@, k));
                }
            }
        }
        i = i + 1;
    }
    proof {
        assert(keys@.take(keys@.len() as int) =~= keys@);
    }
    out
}

proof fn tags_added_keeps(idx: TagMap, tags: Seq<(Seq<char>, Seq<char>)>, id: u32, f: Seq<char>, v: Seq<char>, m: u32)
    requires
        ids_of(values_of(idx, f), v).contains(m),
    ensures
        ids_of(values_of(tags_added(idx, tags, id), f), v).contains(m),
    decreases tags.len(),
{
    if tags.len() > 0 {
        tags_added_keeps(idx, tags.drop_last(), id, f, v, m);
    }
}

proof fn tags_removed_adds_nothing(
    idx: TagMap,
    tags: Seq<(Seq<char>, Seq<char>)>,
    id: u32,
    f: Seq<char>,
    v: Seq<char>,
)
    requires
        !ids_of(values_of(idx, f), v).contains(id),
    ensures
        !ids_of(values_of(tags_removed(idx, tags, id), f), v).contains(id),
    decreases tags.len(),
{
    if tags.len() > 0 {
        tags_removed_adds_nothing(idx, tags.drop_last(), id, f, v);
    }
}

/// A stored row is found under each of its tags, the field in any case:
/// whatever the index held before, after its tags are added the id is among
/// the ids of every (field, value) of the row.
pub proof fn stored_row_found_by_its_tags(idx: TagMap, tags: Seq<(Seq<char>, Seq<char>)>, id: u32, i: int)
    requires
        0 <= i < tags.len(),
    ensures
        ids_of(values_of(tags_added(idx, tags, id), str_lowercase(tags[i].0)), tags[i].1).contains(id),
    decreases tags.len(),
{
    if i == tags.len() - 1 {
    } else {
        stored_row_found_by_its_tags(idx, tags.drop_last(), id, i);
        assert(tags.drop_last()[i] == tags[i]);
        let t = tags_added(idx, tags.drop_last(), id);
        tags_added_keeps(t, seq![tags.last()], id, str_lowercase(tags[i].0), tags[i].1, id);
        assert(seq![tags.last()].drop_last() =~= Seq::<(Seq<char>, Seq<char>)>::empty());
    }
}

/// A deleted row is found under none of its tags: after its tags are
/// removed the id is under no (field, value) of the row.
pub proof fn deleted_row_gone_from_its_tags(idx: TagMap, tags: Seq<(Seq<char>, Seq<char>)>, id: u32, i: int)
    requires
        0 <= i < tags.len(),
    ensures
        !ids_of(values_of(tags_removed(idx, tags, id), str_lowercase(tags[i].0)), tags[i].1).contains(id),
    decreases tags.len(),
{
    if i == tags.len() - 1 {
    } else {
        deleted_row_gone_from_its_tags(idx, tags.drop_last(), id, i);
        assert(tags.drop_last()[i] == tags[i]);
        let t = tags_removed(idx, tags.drop_last(), id);
        tags_removed_adds_nothing(t, seq![tags.last()], id, str_lowercase(tags[i].0), tags[i].1);
        assert(seq![tags.last()].drop_last() =~= Seq::<(Seq<char>, Seq<char>)>::empty());
    }
}

/// Whether id `m` stands under value `v` of field `f`.
pub open spec fn holds(idx: TagMap, f: Seq<char>, v: Seq<char>, m: u32) -> bool {
    idx.contains_key(f) && idx[f].contains_key(v) && idx[f][v].contains(m)
}

/// No field without values and no value without ids: what the index keeps.
pub open spec fn normal(idx: TagMap) -> bool {
    forall|f: Seq<char>|
        #![trigger idx[f]]
        idx.contains_key(f) ==> idx[f] != Map::<Seq<char>, Set<u32>>::empty() && forall|v: Seq<char>|
            #![trigger idx[f][v]]
            idx[f].contains_key(v) ==> idx[f][v] != Set::<u32>::empty()
}

/// Whether the pair (field, value) is one of `tags`, the field lowercased.
pub open spec fn names_pair(tags: Seq<(Seq<char>, Seq<char>)>, f: Seq<char>, v: Seq<char>) -> bool {
    exists|i: int| 0 <= i < tags.len() && str_lowercase(tags[i].0) == f && tags[i].1 == v
}

proof fn nonempty_map_has_key(m: Map<Seq<char>, Set<u32>>)
    requires
        m != Map::<Seq<char>, Set<u32>>::empty(),
    ensures
        exists|k: Seq<char>| m.contains_key(k),
{
    if !(exists|k: Seq<char>| m.contains_key(k)) {
        assert(m =~= Map::<Seq<char>, Set<u32>>::empty());
    }
}

proof fn nonempty_set_has_member(s: Set<u32>)
    requires
        s != Set::<u32>::empty(),
    ensures
        exists|m: u32| s.contains(m),
{
    if !(exists|m: u32| s.contains(m)) {
        assert(s =~= Set::<u32>::empty());
    }
}

proof fn tag_added_holds(idx: TagMap, f0: Seq<char>, v0: Seq<char>, id: u32)
    requires
        normal(idx),
    ensures
        normal(tag_added(idx, f0, v0, id)),
        forall|f: Seq<char>, v: Seq<char>, m: u32|
            #[trigger] holds(tag_added(idx, f0, v0, id), f, v, m) <==> (holds(idx, f, v, m) || (m == id && f == f0
                && v == v0)),
{
    let r = tag_added(idx, f0, v0, id);
    assert forall|f: Seq<char>| #![trigger r[f]] r.contains_key(f) implies r[f] != Map::<Seq<char>, Set<u32>>::empty()
        && forall|v: Seq<char>| #![trigger r[f][v]] r[f].contains_key(v) ==> r[f][v] != Set::<u32>::empty() by {
        if f == f0 {
            assert(r[f].contains_key(v0));
            assert forall|v: Seq<char>| #![trigger r[f][v]] r[f].contains_key(v) implies r[f][v] != Set::<
                u32,
            >::empty() by {
                if v == v0 {
                    assert(r[f][v].contains(id));
                }
            }
        }
    }
}

proof fn tag_removed_holds(idx: TagMap, f0: Seq<char>, v0: Seq<char>, id: u32)
    requires
        normal(idx),
    ensures
        normal(tag_removed(idx, f0, v0, id)),
        forall|f: Seq<char>, v: Seq<char>, m: u32|
            #[trigger] holds(tag_removed(idx, f0, v0, id), f, v, m) <==> (holds(idx, f, v, m) && !(m == id && f
                == f0 && v == v0)),
{
    let r = tag_removed(idx, f0, v0, id);
    if idx.contains_key(f0) {
        let vals = idx[f0];
        let vals2 = if vals.contains_key(v0) {
            if vals[v0].remove(id) == Set::<u32>::empty() {
                vals.remove(v0)
            } else {
                vals.insert(v0, vals[v0].remove(id))
            }
        } else {
            vals
        };
        assert forall|v: Seq<char>| #![trigger vals2[v]] vals2.contains_key(v) implies vals2[v] != Set::<u32>::empty() by {
        }
        // Which ids stand under each value of the field after the removal.
        assert forall|v: Seq<char>, m: u32|
            (vals2.contains_key(v) && vals2[v].contains(m)) <==> (vals.contains_key(v) && vals[v].contains(m) && !(m
                == id && v == v0)) by {
            if vals.contains_key(v0) && v == v0 {
                if vals[v0].remove(id) == Set::<u32>::empty() {
                    if vals[v0].contains(m) && m != id {
                        assert(vals[v0].remove(id).contains(m));
                    }
                }
            }
        }
        if vals2 == Map::<Seq<char>, Set<u32>>::empty() {
            assert(r == idx.remove(f0));
            assert forall|f: Seq<char>, v: Seq<char>, m: u32|
                #[trigger] holds(r, f, v, m) <==> (holds(idx, f, v, m) && !(m == id && f == f0 && v == v0)) by {
                if f == f0 && holds(idx, f, v, m) && !(m == id && v == v0) {
                    assert(vals2.contains_key(v) && vals2[v].contains(m));
                    assert(false);
                }
            }
        } else {
            assert(r == idx.insert(f0, vals2));
            assert forall|f: Seq<char>, v: Seq<char>, m: u32|
                #[trigger] holds(r, f, v, m) <==> (holds(idx, f, v, m) && !(m == id && f == f0 && v == v0)) by {
                if f == f0 {
                    assert(holds(r, f, v, m) == (vals2.contains_key(v) && vals2[v].contains(m)));
                }
            }
        }
    } else {
        assert(r == idx);
    }
}

proof fn tags_added_holds(idx: TagMap, tags: Seq<(Seq<char>, Seq<char>)>, id: u32)
    requires
        normal(idx),
    ensures
        normal(tags_added(idx, tags, id)),
        forall|f: Seq<char>, v: Seq<char>, m: u32|
            #[trigger] holds(tags_added(idx, tags, id), f, v, m) <==> (holds(idx, f, v, m) || (m == id
                && names_pair(tags, f, v))),
    decreases tags.len(),
{
    if tags.len() > 0 {
        let prev = tags.drop_last();
        tags_added_holds(idx, prev, id);
        let t = tags_added(idx, prev, id);
        tag_added_holds(t, str_lowercase(tags.last().0), tags.last().1, id);
        assert forall|f: Seq<char>, v: Seq<char>| #[trigger] names_pair(tags, f, v) <==> (names_pair(prev, f, v) || (
        str_lowercase(tags.last().0) == f && tags.last().1 == v)) by {
            if names_pair(tags, f, v) {
                let i = choose|i: int| 0 <= i < tags.len() && str_lowercase(tags[i].0) == f && tags[i].1 == v;
                if i < tags.len() - 1 {
                    assert(prev[i] == tags[i]);
                }
            }
            if names_pair(prev, f, v) {
                let i = choose|i: int| 0 <= i < prev.len() && str_lowercase(prev[i].0) == f && prev[i].1 == v;
                assert(prev[i] == tags[i]);
            }
            if str_lowercase(tags.last().0) == f && tags.last().1 == v {
                assert(tags[tags.len() - 1] == tags.last());
            }
        }
    } else {
        assert forall|f: Seq<char>, v: Seq<char>| !#[trigger] names_pair(tags, f, v) by {
        }
    }
}

proof fn tags_removed_holds(idx: TagMap, tags: Seq<(Seq<char>, Seq<char>)>, id: u32)
    requires
        normal(idx),
    ensures
        normal(tags_removed(idx, tags, id)),
        forall|f: Seq<char>, v: Seq<char>, m: u32|
            #[trigger] holds(tags_removed(idx, tags, id), f, v, m) <==> (holds(idx, f, v, m) && !(m == id
                && names_pair(tags, f, v))),
    decreases tags.len(),
{
    if tags.len() > 0 {
        let prev = tags.drop_last();
        tags_removed_holds(idx, prev, id);
        let t = tags_removed(idx, prev, id);
        tag_removed_holds(t, str_lowercase(tags.last().0), tags.last().1, id);
        assert forall|f: Seq<char>, v: Seq<char>| #[trigger] names_pair(tags, f, v) <==> (names_pair(prev, f, v) || (
        str_lowercase(tags.last().0) == f && tags.last().1 == v)) by {
            if names_pair(tags, f, v) {
                let i = choose|i: int| 0 <= i < tags.len() && str_lowercase(tags[i].0) == f && tags[i].1 == v;
                if i < tags.len() - 1 {
                    assert(prev[i] == tags[i]);
                }
            }
            if names_pair(prev, f, v) {
                let i = choose|i: int| 0 <= i < prev.len() && str_lowercase(prev[i].0) == f && prev[i].1 == v;
                assert(prev[i] == tags[i]);
            }
            if str_lowercase(tags.last().0) == f && tags.last().1 == v {
                assert(tags[tags.len() - 1] == tags.last());
            }
        }
    } else {
        assert forall|f: Seq<char>, v: Seq<char>| !#[trigger] names_pair(tags, f, v) by {
        }
    }
}

proof fn normal_maps_equal(a: TagMap, b: TagMap)
    requires
        normal(a),
        normal(b),
        forall|f: Seq<char>, v: Seq<char>, m: u32| #[trigger] holds(a, f, v, m) == holds(b, f, v, m),
    ensures
        a == b,
{
    assert forall|f: Seq<char>| a.contains_key(f) implies b.contains_key(f) by {
        nonempty_map_has_key(a[f]);
        let v = choose|v: Seq<char>| a[f].contains_key(v);
        nonempty_set_has_member(a[f][v]);
        let m = choose|m: u32| a[f][v].contains(m);
        assert(holds(a, f, v, m));
    }
    assert forall|f: Seq<char>| b.contains_key(f) implies a.contains_key(f) by {
        nonempty_map_has_key(b[f]);
        let v = choose|v: Seq<char>| b[f].contains_key(v);
        nonempty_set_has_member(b[f][v]);
        let m = choose|m: u32| b[f][v].contains(m);
        assert(holds(b, f, v, m) == holds(a, f, v, m));
    }
    assert forall|f: Seq<char>| a.contains_key(f) implies #[trigger] a[f] == b[f] by {
        assert forall|v: Seq<char>| a[f].contains_key(v) implies b[f].contains_key(v) by {
            nonempty_set_has_member(a[f][v]);
            let m = choose|m: u32| a[f][v].contains(m);
            assert(holds(a, f, v, m));
        }
        assert forall|v: Seq<char>| b[f].contains_key(v) implies a[f].contains_key(v) by {
            nonempty_set_has_member(b[f][v]);
            let m = choose|m: u32| b[f][v].contains(m);
            assert(holds(b, f, v, m) == holds(a, f, v, m));
        }
        assert forall|v: Seq<char>| a[f].contains_key(v) implies #[trigger] a[f][v] == b[f][v] by {
            assert forall|m: u32| a[f][v].contains(m) == b[f][v].contains(m) by {
                assert(holds(a, f, v, m) == holds(b, f, v, m));
            }
            assert(a[f][v] =~= b[f][v]);
        }
        assert(a[f] =~= b[f]);
    }
    assert(a =~= b);
}

/// Deleting a row stored under an id the index did not hold restores the
/// index: its tags are as before (and so are the present ids, the id having
/// been absent).
pub proof fn delete_undoes_upsert(idx: TagMap, all: Set<u32>, tags: Seq<(Seq<char>, Seq<char>)>, id: u32)
    requires
        normal(idx),
        !all.contains(id),
        forall|f: Seq<char>, v: Seq<char>| !#[trigger] holds(idx, f, v, id),
    ensures
        tags_removed(tags_added(idx, tags, id), tags, id) == idx,
        all.insert(id).remove(id) == all,
{
    tags_added_holds(idx, tags, id);
    let added = tags_added(idx, tags, id);
    tags_removed_holds(added, tags, id);
    let back = tags_removed(added, tags, id);
    assert forall|f: Seq<char>, v: Seq<char>, m: u32| #[trigger] holds(back, f, v, m) == holds(idx, f, v, m) by {
        assert(holds(back, f, v, m) == (holds(added, f, v, m) && !(m == id && names_pair(tags, f, v))));
        assert(holds(added, f, v, m) == (holds(idx, f, v, m) || (m == id && names_pair(tags, f, v))));
        if m == id {
            assert(!holds(idx, f, v, id));
        }
    }
    normal_maps_equal(back, idx);
    assert(all.insert(id).remove(id) =~= all);
}

/// The tag index of an engine.
pub struct TagIndex {
    tags: TermTable<TermTable<RoaringBitmap>>,
    all_ids: RoaringBitmap,
    vector_dim: Option<usize>,
}

impl View for TagIndex {
    type V = TagIndexView;

    closed spec fn view(&self) -> TagIndexView {
        TagIndexView {
            tags: self.tags@.map_values(|t: TermTable<RoaringBitmap>| value_sets(t@)),
            all: bitmap_members(self.all_ids),
            vector_dim: self.vector_dim,
        }
    }
}

/// Why a row was refused.
#[derive(Debug, Clone, Copy, PartialEq, Eq, Structural)]
pub enum DimMismatch {
    /// The rows have vectors of dimension `expected`; this one has `got`.
    Mismatch { expected: usize, got: usize },
}

impl TagIndex {
    /// Every table in the index holds each term once.
    pub closed spec fn wf(&self) -> bool {
        &&& self.tags.wf()
        &&& forall|f: Seq<char>| #[trigger] self.tags@.contains_key(f) ==> self.tags@[f].wf()
        &&& normal(self@.tags)
    }

    /// A well-formed index keeps no field without values and no value without
    /// ids.
    pub proof fn well_formed_index_is_normal(&self)
        requires
            self.wf(),
        ensures
            normal(self@.tags),
    {
    }

    /// An empty index with no vector dimension yet.
    pub fn new() -> (r: Self)
        ensures
            r.wf(),
            r@.tags == TagMap::empty(),
            r@.all == Set::<u32>::empty(),
            r@.vector_dim is None,
    {
        let r = TagIndex { tags: TermTable::new(), all_ids: bm_new(), vector_dim: None };
        proof {
            assert(r@.tags =~= TagMap::empty());
        }
        r
    }

    /// Checks a row's vector dimension: the first row fixes it, later rows
    /// must match it.
    pub fn validate_vector_dim(&mut self, dim: usize) -> (r: Result<(), DimMismatch>)
        requires
            old(self).wf(),
        ensures
            final(self).wf(),
            final(self)@.tags == old(self)@.tags,
            final(self)@.all == old(self)@.all,
            match old(self)@.vector_dim {
                Some(d) => final(self)@.vector_dim == Some(d) && (if d == dim {
                    r is Ok
                } else {
                    r == Err::<(), DimMismatch>(DimMismatch::Mismatch { expected: d, got: dim })
                }),
                None => final(self)@.vector_dim == Some(dim) && r is Ok,
            },
    {
        match self.vector_dim {
            Some(current) => {
                if current != dim {
                    return Err(DimMismatch::Mismatch { expected: current, got: dim });
                }
                Ok(())
            },
            None => {
                self.vector_dim = Some(dim);
                Ok(())
            },
        }
    }

    /// Records a row id as present.
    pub fn add_id(&mut self, id: u32)
        ensures
            final(self)@.tags == old(self)@.tags,
            final(self)@.vector_dim == old(self)@.vector_dim,
            final(self)@.all == old(self)@.all.insert(id),
            old(self).wf() ==> final(self).wf(),
    {
        bm_insert(&mut self.all_ids, id);
    }

    /// Records a row id as gone.
    pub fn remove_id(&mut self, id: u32)
        ensures
            final(self)@.tags == old(self)@.tags,
            final(self)@.vector_dim == old(self)@.vector_dim,
            final(self)@.all == old(self)@.all.remove(id),
            old(self).wf() ==> final(self).wf(),
    {
        bm_remove(&mut self.all_ids, id);
    }

    /// All row ids.
    pub fn all_bitmap(&self) -> (r: RoaringBitmap)
        ensures
            bitmap_members(r) == self@.all,
    {
        bm_clone(&self.all_ids)
    }

    fn add_tag(&mut self, field: &str, value: &str, id: u32)
        requires
            old(self).wf(),
        ensures
            final(self).wf(),
            final(self)@.tags == tag_added(old(self)@.tags, str_lowercase(field@), value@, id),
            final(self)@.all == old(self)@.all,
            final(self)@.vector_dim == old(self)@.vector_dim,
    {
        let fl = to_lowercase(field);
        let ghost idx = self@.tags;
        let ghost raw = self.tags@;
        proof {
            tag_added_holds(idx, fl@, value@, id);
        }
        let mut inner = match self.tags.remove(fl.as_str()) {
            Some(t) => t,
            None => TermTable::new(),
        };
        let ghost vals = value_sets(inner@);
        proof {
            assert(vals == values_of(idx, fl@));
        }
        let mut bm = match inner.remove(value) {
            Some(b) => b,
            None => bm_new(),
        };
        proof {
            assert(bitmap_members(bm) == ids_of(vals, value@));
        }
        bm_insert(&mut bm, id);
        let ghost bmv = bitmap_members(bm);
        let ghost inner_before = inner@;
        inner.insert(value, bm);
        proof {
            assert(value_sets(inner@) =~= vals.insert(value@, bmv));
        }
        let ghost inner_v = value_sets(inner@);
        let ghost tags_mid = self.tags@;
        self.tags.insert(fl.as_str(), inner);
        proof {
            assert(self@.tags =~= tag_added(idx, fl@, value@, id)) by {
                assert forall|f: Seq<char>| #[trigger] self@.tags.contains_key(f) implies self@.tags[f]
                    == tag_added(idx, fl@, value@, id)[f] by {
                    if f != fl@ {
                        assert(self.tags@[f] == raw[f]);
                    }
                }
            }
            assert forall|f: Seq<char>| #[trigger] self.tags@.contains_key(f) implies self.tags@[f].wf() by {
                if f != fl@ {
                    assert(raw.contains_key(f));
                }
            }
        }
    }

    fn remove_tag(&mut self, field: &str, value: &str, id: u32)
        requires
            old(self).wf(),
        ensures
            final(self).wf(),
            final(self)@.tags == tag_removed(old(self)@.tags, str_lowercase(field@), value@, id),
            final(self)@.all == old(self)@.all,
            final(self)@.vector_dim == old(self)@.vector_dim,
    {
        let fl = to_lowercase(field);
        let ghost idx = self@.tags;
        let ghost raw = self.tags@;
        proof {
            tag_removed_holds(idx, fl@, value@, id);
        }
        match self.tags.remove(fl.as_str()) {
            Some(mut inner) => {
                let ghost vals = value_sets(inner@);
                proof {
                    assert(idx.contains_key(fl@));
                    assert(vals == idx[fl@]);
                }
                match inner.remove(value) {
                    Some(mut bm) => {
                        bm_remove(&mut bm, id);
                        if !bm_is_empty(&bm) {
                            inner.insert(value, bm);
                        }
                    },
                    None => {},
                }
                let ghost vals2 = value_sets(inner@);
                proof {
                    let want = if vals.contains_key(value@) {
                        if vals[value@].remove(id) == Set::<u32>::empty() {
                            vals.remove(value@)
                        } else {
                            vals.insert(value@, vals[value@].remove(id))
                        }
                    } else {
                        vals
                    };
                    assert(vals2 =~= want);
                }
                if !inner.is_empty() {
                    self.tags.insert(fl.as_str(), inner);
                    proof {
                        assert(vals2 != Map::<Seq<char>, Set<u32>>::empty()) by {
                            if vals2 == Map::<Seq<char>, Set<u32>>::empty() {
                                assert(inner@ =~= Map::<Seq<char>, RoaringBitmap>::empty()) by {
                                    assert forall|k: Seq<char>| !inner@.contains_key(k) by {
                                        if inner@.contains_key(k) {
                                            assert(vals2.contains_key(k));
                                        }
                                    }
                                }
                            }
                        }
                        assert(self@.tags =~= tag_removed(idx, fl@, value@, id)) by {
                            assert forall|f: Seq<char>| #[trigger] self@.tags.contains_key(f) implies self@.tags[f]
                                == tag_removed(idx, fl@, value@, id)[f] by {
                                if f != fl@ {
                                    assert(self.tags@[f] == raw[f]);
                                }
                            }
                        }
                    }
                } else {
                    proof {
                        assert(vals2 =~= Map::<Seq<char>, Set<u32>>::empty());
                        assert(self@.tags =~= tag_removed(idx, fl@, value@, id)) by {
                            assert forall|f: Seq<char>| #[trigger] self@.tags.contains_key(f) implies self@.tags[f]
                                == tag_removed(idx, fl@, value@, id)[f] by {
                                assert(self.tags@[f] == raw[f]);
                            }
                        }
                    }
                }
            },
            None => {
                proof {
                    assert(self.tags@ =~= raw);
                    assert(self@.tags =~= idx);
                }
            },
        }
        proof {
            assert forall|f: Seq<char>| #[trigger] self.tags@.contains_key(f) implies self.tags@[f].wf() by {
                if f != fl@ {
                    assert(raw.contains_key(f));
                }
            }
        }
    }

    /// Adds a row's tags: its id goes under each (field, value), the field
    /// lowercased.
    pub fn insert_into_indexes(&mut self, id: u32, tags: &Vec<(String, String)>)
        requires
            old(self).wf(),
        ensures
            final(self).wf(),
            final(self)@.tags == tags_added(old(self)@.tags, tag_views(tags@), id),
            final(self)@.all == old(self)@.all,
            final(self)@.vector_dim == old(self)@.vector_dim,
    {
        let ghost tv = tag_views(tags@);
        let mut i: usize = 0;
        while i < tags.len()
            invariant
                self.wf(),
                i <= tags@.len(),
                tv == tag_views(tags@),
                self@.tags == tags_added(old(self)@.tags, tv.take(i as int), id),
                self@.all == old(self)@.all,
                self@.vector_dim == old(self)@.vector_dim,
            decreases tags.len() - i,
        {
            self.add_tag(tags[i].0.as_str(), tags[i].1.as_str(), id);
            proof {
                assert(tv.take(i + 1).drop_last() =~= tv.take(i as int));
                assert(tv.take(i + 1).last() == tv[i as int]);
            }
            i = i + 1;
        }
        proof {
            assert(tv.take(tags@.len() as int) =~= tv);
        }
    }

    /// Removes a row's tags: its id leaves each (field, value), and values
    /// and fields left empty go.
    pub fn remove_from_indexes(&mut self, id: u32, tags: &Vec<(String, String)>)
        requires
            old(self).wf(),
        ensures
            final(self).wf(),
            final(self)@.tags == tags_removed(old(self)@.tags, tag_views(tags@), id),
            final(self)@.all == old(self)@.all,
            final(self)@.vector_dim == old(self)@.vector_dim,
    {
        let ghost tv = tag_views(tags@);
        let mut i: usize = 0;
        while i < tags.len()
            invariant
                self.wf(),
                i <= tags@.len(),
                tv == tag_views(tags@),
                self@.tags == tags_removed(old(self)@.tags, tv.take(i as int), id),
                self@.all == old(self)@.all,
                self@.vector_dim == old(self)@.vector_dim,
            decreases tags.len() - i,
        {
            self.remove_tag(tags[i].0.as_str(), tags[i].1.as_str(), id);
            proof {
                assert(tv.take(i + 1).drop_last() =~= tv.take(i as int));
                assert(tv.take(i + 1).last() == tv[i as int]);
            }
            i = i + 1;
        }
        proof {
            assert(tv.take(tags@.len() as int) =~= tv);
        }
    }

    /// The distinct values of tag `field` (in any case), sorted.
    pub fn distinct_tag_values(&self, field: &str) -> (r: Vec<String>)
        requires
            self.wf(),
        ensures
            strictly_sorted(r@),
            forall|k: Seq<char>| #[trigger] values_of(self@.tags, str_lowercase(field@)).contains_key(k) <==> holds_view(r@, k),
    {
        let fl = to_lowercase(field);
        match self.tags.get(fl.as_str()) {
            Some(vals) => {
                proof {
                    assert(self@.tags[fl@] == value_sets(vals@));
                }
                let keys = vals.keys();
                let r = sort_distinct(keys);
                proof {
                    assert forall|k: Seq<char>| #[trigger] values_of(self@.tags, fl@).contains_key(k) <==> holds_view(r@, k) by {
                        assert(values_of(self@.tags, fl@).contains_key(k) == vals@.contains_key(k));
                        if vals@.contains_key(k) {
                            assert(holds_view(keys@, k));
                            assert(holds_view(r@, k));
                        }
                        if holds_view(r@, k) {
                            assert(holds_view(keys@, k));
                        }
                    }
                }
                r
            },
            None => Vec::new(),
        }
    }

    /// Stores a row: checks its vector dimension, takes the id out of the
    /// tags of the row it replaces (if any), puts it under the new tags and
    /// records it as present. A refused row leaves the index as it was.
    pub fn upsert(
        &mut self,
        id: u32,
        dim: usize,
        previous: Option<&Vec<(String, String)>>,
        tags: &Vec<(String, String)>,
    ) -> (r: Result<(), DimMismatch>)
        requires
            old(self).wf(),
        ensures
            final(self).wf(),
            match old(self)@.vector_dim {
                Some(d) => d != dim ==> r == Err::<(), DimMismatch>(DimMismatch::Mismatch { expected: d, got: dim }),
                None => true,
            },
            r is Err ==> final(self)@ == old(self)@,
            r is Ok <==> (old(self)@.vector_dim is None || old(self)@.vector_dim == Some(dim)),
            r is Ok ==> {
                let cleared = match previous {
                    Some(p) => tags_removed(old(self)@.tags, tag_views(p@), id),
                    None => old(self)@.tags,
                };
                &&& final(self)@.tags == tags_added(cleared, tag_views(tags@), id)
                &&& final(self)@.all == old(self)@.all.insert(id)
                &&& final(self)@.vector_dim == Some(dim)
            },
    {
        match self.validate_vector_dim(dim) {
            Err(e) => return Err(e),
            Ok(()) => {},
        }
        match previous {
            Some(p) => self.remove_from_indexes(id, p),
            None => {},
        }
        self.insert_into_indexes(id, tags);
        self.add_id(id);
        Ok(())
    }

    /// Deletes a stored row with these tags: the id leaves its tags and the
    /// set of present ids.
    pub fn delete(&mut self, id: u32, previous: &Vec<(String, String)>)
        requires
            old(self).wf(),
        ensures
            final(self).wf(),
            final(self)@.tags == tags_removed(old(self)@.tags, tag_views(previous@), id),
            final(self)@.all == old(self)@.all.remove(id),
            final(self)@.vector_dim == old(self)@.vector_dim,
    {
        self.remove_from_indexes(id, previous);
        self.remove_id(id);
    }

    /// The ids whose tag `field` (in any case) has exactly this value.
    pub fn bitmap_for_tag_eq(&self, field: &str, value: &str) -> (r: RoaringBitmap)
        requires
            self.wf(),
        ensures
            bitmap_members(r) == ids_of(values_of(self@.tags, str_lowercase(field@)), value@),
    {
        let fl = to_lowercase(field);
        match self.tags.get(fl.as_str()) {
            Some(vals) => {
                proof {
                    assert(self@.tags[fl@] == value_sets(vals@));
                }
                match vals.get(value) {
                    Some(b) => bm_clone(b),
                    None => bm_new(),
                }
            },
            None => bm_new(),
        }
    }

    /// The ids whose tag `field` reads as a `u32` within the bounds (each
    /// bound optional, inclusive or not); values that are not numbers are
    /// skipped.
    pub fn bitmap_for_tag_range(
        &self,
        field: &str,
        low: Option<u32>,
        high: Option<u32>,
        inclusive_low: bool,
        inclusive_high: bool,
    ) -> (r: RoaringBitmap)
        requires
            self.wf(),
        ensures
            bitmap_members(r) == range_ids(
                values_of(self@.tags, str_lowercase(field@)),
                low,
                high,
                inclusive_low,
                inclusive_high,
            ),
    {
        let fl = to_lowercase(field);
        let vals = match self.tags.get(fl.as_str()) {
            Some(v) => v,
            None => {
                proof {
                    assert(range_ids(Map::empty(), low, high, inclusive_low, inclusive_high) =~= Set::<u32>::empty());
                }
                return bm_new();
            },
        };
        let ghost vs = value_sets(vals@);
        proof {
            assert(self@.tags[fl@] == vs);
        }
        let keys = vals.keys();
        let mut result = bm_new();
        let mut i: usize = 0;
        while i < keys.len()
            invariant
                vals.wf(),
                vs == value_sets(vals@),
                i <= keys@.len(),
                forall|k: Seq<char>| #[trigger] vals@.contains_key(k) <==> exists|a: int|
                    0 <= a < keys@.len() && keys@[a]@ == k,
                bitmap_members(result) == Set::new(
                    |m: u32|
                        exists|a: int|
                            0 <= a < i && (parse_unsigned_spec(keys@[a]@, u32::MAX as nat) matches Some(n) && in_range(
                                n,
                                low,
                                high,
                                inclusive_low,
                                inclusive_high,
                            )) && #[trigger] vs[keys@[a]@].contains(m),
                ),
            decreases keys.len() - i,
        {
            let kc = chars_of(keys[i].as_str());
            let ghost prev = bitmap_members(result);
            let mut hit = false;
            match parse_unsigned(kc.as_slice(), 0xffff_ffff) {
                Some(n) => {
                    let lo_ok = match low {
                        None => true,
                        Some(lo) => if inclusive_low { n >= lo as u64 } else { n > lo as u64 },
                    };
                    let hi_ok = match high {
                        None => true,
                        Some(hi) => if inclusive_high { n <= hi as u64 } else { n < hi as u64 },
                    };
                    if lo_ok && hi_ok {
                        hit = true;
                    }
                },
                None => {},
            }
            proof {
                assert(vals@.contains_key(keys@[i as int]@));
            }
            if hit {
                match vals.get(keys[i].as_str()) {
                    Some(b) => {
                        bm_union_with(&mut result, b);
                    },
                    None => {
                        proof {
                            assert(false);
                        }
                    },
                }
            }
            proof {
                let s1 = Set::new(
                    |m: u32|
                        exists|a: int|
                            0 <= a < i + 1 && (parse_unsigned_spec(keys@[a]@, u32::MAX as nat) matches Some(n)
                                && in_range(n, low, high, inclusive_low, inclusive_high))
                                && #[trigger] vs[keys@[a]@].contains(m),
                );
                assert forall|m: u32| #[trigger] s1.contains(m) == bitmap_members(result).contains(m) by {
                    if s1.contains(m) {
                        let a = choose|a: int|
                            0 <= a < i + 1 && (parse_unsigned_spec(keys@[a]@, u32::MAX as nat) matches Some(n)
                                && in_range(n, low, high, inclusive_low, inclusive_high))
                                && #[trigger] vs[keys@[a]@].contains(m);
                        if a < i {
                            assert(prev.contains(m));
                        }
                    }
                    if bitmap_members(result).contains(m) && !prev.contains(m) {
                        assert(vs[keys@[i as int]@].contains(m));
                    }
                }
                assert(bitmap_members(result) =~= s1);
            }
            i = i + 1;
        }
        proof {
            let want = range_ids(vs, low, high, inclusive_low, inclusive_high);
            assert forall|m: u32| #[trigger] want.contains(m) == bitmap_members(result).contains(m) by {
                if want.contains(m) {
                    let v = choose|v: Seq<char>|
                        #[trigger] vs.contains_key(v) && (parse_unsigned_spec(v, u32::MAX as nat) matches Some(n)
                            && in_range(n, low, high, inclusive_low, inclusive_high)) && vs[v].contains(m);
                    assert(vals@.contains_key(v));
                    let a = choose|a: int| 0 <= a < keys@.len() && keys@[a]@ == v;
                    assert(vs[keys@[a]@].contains(m));
                }
                if bitmap_members(result).contains(m) {
                    let a = choose|a: int|
                        0 <= a < keys@.len() && (parse_unsigned_spec(keys@[a]@, u32::MAX as nat) matches Some(n)
                            && in_range(n, low, high, inclusive_low, inclusive_high))
                            && #[trigger] vs[keys@[a]@].contains(m);
                    assert(vals@.contains_key(keys@[a]@));
                    assert(vs.contains_key(keys@[a]@));
                }
            }
            assert(bitmap_members(result) =~= want);
        }
        result
    }
}

} // verus!
