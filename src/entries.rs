//! Row-major sequences of `(row, col, value)` triples and the coordinate
//! mappings they store.

use vstd::prelude::*;

verus! {

/// Strict row-major order on coordinates.
pub open spec fn coord_lt(r1: int, c1: int, r2: int, c2: int) -> bool {
    r1 < r2 || (r1 == r2 && c1 < c2)
}

/// The coordinate of a stored triple.
pub open spec fn key_of<V>(e: (usize, usize, V)) -> (int, int) {
    (e.0 as int, e.1 as int)
}

/// Triples sorted strictly in row-major order (hence with distinct coordinates).
pub open spec fn sorted_entries<V>(s: Seq<(usize, usize, V)>) -> bool {
    forall|i: int, j: int|
        0 <= i < j < s.len() ==> coord_lt(
            #[trigger] s[i].0 as int,
            s[i].1 as int,
            #[trigger] s[j].0 as int,
            s[j].1 as int,
        )
}

/// Every triple lies inside a `rows` x `columns` shape.
pub open spec fn entries_in_shape<V>(s: Seq<(usize, usize, V)>, rows: nat, columns: nat) -> bool {
    forall|i: int| 0 <= i < s.len() ==> (#[trigger] s[i]).0 < rows && s[i].1 < columns
}

/// The coordinate-to-value mapping that a sequence of triples stores.
pub open spec fn entries_map<V>(s: Seq<(usize, usize, V)>) -> Map<(int, int), V> {
    Map::new(
        |k: (int, int)| exists|i: int| 0 <= i < s.len() && key_of(#[trigger] s[i]) == k,
        |k: (int, int)| s[choose|i: int| 0 <= i < s.len() && key_of(#[trigger] s[i]) == k].2,
    )
}

/// In a sorted sequence each triple is what the mapping holds at its coordinate.
pub proof fn lemma_entries_map_at<V>(s: Seq<(usize, usize, V)>, i: int)
    requires
        sorted_entries(s),
        0 <= i < s.len(),
    ensures
        entries_map(s).contains_key(key_of(s[i])),
        entries_map(s)[key_of(s[i])] == s[i].2,
{
    let k = key_of(s[i]);
    assert(0 <= i < s.len() && key_of(s[i]) == k);
    let j = choose|j: int| 0 <= j < s.len() && key_of(#[trigger] s[j]) == k;
    if j < i {
        assert(coord_lt(s[j].0 as int, s[j].1 as int, s[i].0 as int, s[i].1 as int));
    } else if i < j {
        assert(coord_lt(s[i].0 as int, s[i].1 as int, s[j].0 as int, s[j].1 as int));
    }
}

/// Whole-map form of `lemma_entries_map_at`.
pub proof fn lemma_entries_map_all<V>(s: Seq<(usize, usize, V)>)
    requires
        sorted_entries(s),
    ensures
        forall|i: int|
            0 <= i < s.len() ==> entries_map(s).contains_key(key_of(#[trigger] s[i]))
                && entries_map(s)[key_of(s[i])] == s[i].2,
        forall|k: (int, int)|
            #[trigger] entries_map(s).contains_key(k) ==> exists|i: int|
                0 <= i < s.len() && key_of(#[trigger] s[i]) == k,
{
    assert forall|i: int| 0 <= i < s.len() implies entries_map(s).contains_key(
        key_of(#[trigger] s[i]),
    ) && entries_map(s)[key_of(s[i])] == s[i].2 by {
        lemma_entries_map_at(s, i);
    }
}

/// Overwriting the triple at a coordinate overwrites the mapping there.
pub proof fn lemma_update_map<V>(s: Seq<(usize, usize, V)>, pos: int, t: (usize, usize, V))
    requires
        sorted_entries(s),
        0 <= pos < s.len(),
        key_of(s[pos]) == key_of(t),
    ensures
        sorted_entries(s.update(pos, t)),
        entries_map(s.update(pos, t)) == entries_map(s).insert(key_of(t), t.2),
{
    let s2 = s.update(pos, t);
    assert(sorted_entries(s2)) by {
        assert forall|i: int, j: int| 0 <= i < j < s2.len() implies coord_lt(
            #[trigger] s2[i].0 as int,
            s2[i].1 as int,
            #[trigger] s2[j].0 as int,
            s2[j].1 as int,
        ) by {
            assert(coord_lt(s[i].0 as int, s[i].1 as int, s[j].0 as int, s[j].1 as int));
        }
    }
    lemma_entries_map_all(s);
    lemma_entries_map_all(s2);
    let m = entries_map(s).insert(key_of(t), t.2);
    assert forall|k: (int, int)| #[trigger] entries_map(s2).contains_key(k) <==> m.contains_key(k) by {
        if entries_map(s2).contains_key(k) {
            let i = choose|i: int| 0 <= i < s2.len() && key_of(#[trigger] s2[i]) == k;
            if i != pos {
                assert(key_of(s[i]) == k);
            }
        }
        if m.contains_key(k) && k != key_of(t) {
            let i = choose|i: int| 0 <= i < s.len() && key_of(#[trigger] s[i]) == k;
            assert(key_of(s2[i]) == k);
        }
        if k == key_of(t) {
            assert(key_of(s2[pos]) == k);
        }
    }
    assert forall|k: (int, int)| #[trigger] entries_map(s2).contains_key(k) implies entries_map(
        s2,
    )[k] == m[k] by {
        let i = choose|i: int| 0 <= i < s2.len() && key_of(#[trigger] s2[i]) == k;
        if i != pos {
            assert(key_of(s[i]) == k);
        }
    }
    assert(entries_map(s2) =~= m);
}

/// Inserting a triple at a fresh coordinate adds it to the mapping.
pub proof fn lemma_insert_map<V>(s: Seq<(usize, usize, V)>, pos: int, t: (usize, usize, V))
    requires
        0 <= pos <= s.len(),
        sorted_entries(s.insert(pos, t)),
    ensures
        sorted_entries(s),
        entries_map(s.insert(pos, t)) == entries_map(s).insert(key_of(t), t.2),
{
    let s2 = s.insert(pos, t);
    assert(sorted_entries(s)) by {
        assert forall|i: int, j: int| 0 <= i < j < s.len() implies coord_lt(
            #[trigger] s[i].0 as int,
            s[i].1 as int,
            #[trigger] s[j].0 as int,
            s[j].1 as int,
        ) by {
            let i2 = if i < pos { i } else { i + 1 };
            let j2 = if j < pos { j } else { j + 1 };
            assert(s2[i2] == s[i] && s2[j2] == s[j]);
            assert(coord_lt(s2[i2].0 as int, s2[i2].1 as int, s2[j2].0 as int, s2[j2].1 as int));
        }
    }
    lemma_entries_map_all(s);
    lemma_entries_map_all(s2);
    let m = entries_map(s).insert(key_of(t), t.2);
    assert forall|k: (int, int)| #[trigger] entries_map(s2).contains_key(k) <==> m.contains_key(k) by {
        if entries_map(s2).contains_key(k) {
            let i = choose|i: int| 0 <= i < s2.len() && key_of(#[trigger] s2[i]) == k;
            if i < pos {
                assert(s2[i] == s[i]);
            } else if i > pos {
                assert(s2[i] == s[i - 1]);
            }
        }
        if m.contains_key(k) && k != key_of(t) {
            let i = choose|i: int| 0 <= i < s.len() && key_of(#[trigger] s[i]) == k;
            let i2 = if i < pos { i } else { i + 1 };
            assert(s2[i2] == s[i]);
        }
        if k == key_of(t) {
            assert(s2[pos] == t);
        }
    }
    assert forall|k: (int, int)| #[trigger] entries_map(s2).contains_key(k) implies entries_map(
        s2,
    )[k] == m[k] by {
        let i = choose|i: int| 0 <= i < s2.len() && key_of(#[trigger] s2[i]) == k;
        if i < pos {
            assert(s2[i] == s[i]);
            assert(coord_lt(s2[i].0 as int, s2[i].1 as int, s2[pos].0 as int, s2[pos].1 as int));
        } else if i > pos {
            assert(s2[i] == s[i - 1]);
            assert(coord_lt(s2[pos].0 as int, s2[pos].1 as int, s2[i].0 as int, s2[i].1 as int));
        }
    }
    assert(entries_map(s2) =~= m);
}

/// Removing the triple at a position removes its coordinate from the mapping.
pub proof fn lemma_remove_map<V>(s: Seq<(usize, usize, V)>, pos: int)
    requires
        sorted_entries(s),
        0 <= pos < s.len(),
    ensures
        sorted_entries(s.remove(pos)),
        entries_map(s.remove(pos)) == entries_map(s).remove(key_of(s[pos])),
{
    let s2 = s.remove(pos);
    assert(s == s2.insert(pos, s[pos]));
    lemma_insert_map(s2, pos, s[pos]);
    lemma_entries_map_all(s2);
    if entries_map(s2).contains_key(key_of(s[pos])) {
        let i = choose|i: int| 0 <= i < s2.len() && key_of(#[trigger] s2[i]) == key_of(s[pos]);
        if i < pos {
            assert(coord_lt(s[i].0 as int, s[i].1 as int, s[pos].0 as int, s[pos].1 as int));
        } else {
            assert(s2[i] == s[i + 1]);
            assert(coord_lt(s[pos].0 as int, s[pos].1 as int, s[i + 1].0 as int, s[i + 1].1 as int));
        }
    }
    assert(entries_map(s2) =~= entries_map(s).remove(key_of(s[pos])));
}

/// Appending a triple after all others adds it to the mapping.
pub proof fn lemma_push_map<V>(s: Seq<(usize, usize, V)>, t: (usize, usize, V))
    requires
        sorted_entries(s.push(t)),
    ensures
        sorted_entries(s),
        entries_map(s.push(t)) == entries_map(s).insert(key_of(t), t.2),
{
    assert(s.push(t) =~= s.insert(s.len() as int, t));
    lemma_insert_map(s, s.len() as int, t);
}

/// Growing a prefix of a sorted sequence by one triple adds that triple to
/// the mapping.
pub proof fn lemma_prefix_map_step<V>(s: Seq<(usize, usize, V)>, i: int)
    requires
        sorted_entries(s),
        0 <= i < s.len(),
    ensures
        sorted_entries(s.take(i + 1)),
        entries_map(s.take(i + 1)) == entries_map(s.take(i)).insert(key_of(s[i]), s[i].2),
{
    assert(s.take(i + 1) =~= s.take(i).push(s[i]));
    assert(sorted_entries(s.take(i + 1))) by {
        assert forall|a: int, b: int| 0 <= a < b < s.take(i + 1).len() implies coord_lt(
            #[trigger] s.take(i + 1)[a].0 as int,
            s.take(i + 1)[a].1 as int,
            #[trigger] s.take(i + 1)[b].0 as int,
            s.take(i + 1)[b].1 as int,
        ) by {
            assert(coord_lt(s[a].0 as int, s[a].1 as int, s[b].0 as int, s[b].1 as int));
        }
    }
    lemma_push_map(s.take(i), s[i]);
}

/// Two sorted sequences that store the same mapping are the same sequence:
/// the row-major form of a matrix is canonical.
pub proof fn lemma_sorted_canonical<V>(s1: Seq<(usize, usize, V)>, s2: Seq<(usize, usize, V)>)
    requires
        sorted_entries(s1),
        sorted_entries(s2),
        entries_map(s1) == entries_map(s2),
    ensures
        s1 == s2,
    decreases s1.len(),
{
    lemma_entries_map_all(s1);
    lemma_entries_map_all(s2);
    if s1.len() == 0 || s2.len() == 0 {
        if s2.len() > 0 {
            assert(entries_map(s2).contains_key(key_of(s2[0])));
        }
        if s1.len() > 0 {
            assert(entries_map(s1).contains_key(key_of(s1[0])));
        }
        assert(s1 =~= s2);
    } else {
        let n1 = s1.len() - 1;
        let n2 = s2.len() - 1;
        let l1 = s1[n1];
        let l2 = s2[n2];
        assert(entries_map(s1).contains_key(key_of(s1[n1])));
        assert(entries_map(s2).contains_key(key_of(s2[n2])));
        let i1 = choose|i: int| 0 <= i < s1.len() && key_of(#[trigger] s1[i]) == key_of(l2);
        let i2 = choose|i: int| 0 <= i < s2.len() && key_of(#[trigger] s2[i]) == key_of(l1);
        if i1 < n1 {
            assert(coord_lt(s1[i1].0 as int, s1[i1].1 as int, l1.0 as int, l1.1 as int));
        }
        if i2 < n2 {
            assert(coord_lt(s2[i2].0 as int, s2[i2].1 as int, l2.0 as int, l2.1 as int));
        }
        assert(key_of(l1) == key_of(l2));
        assert(l1 == l2);
        lemma_remove_map(s1, n1);
        lemma_remove_map(s2, n2);
        lemma_sorted_canonical(s1.remove(n1), s2.remove(n2));
        assert(s1 =~= s1.remove(n1).push(l1));
        assert(s2 =~= s2.remove(n2).push(l2));
    }
}

} // verus!
