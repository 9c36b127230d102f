//! The index set `I` of a lookup and the column map `col` into it.
use vstd::prelude::*;
use crate::error::BalooError;
use crate::scalar::Scalar;

verus! {

/// `v` occurs somewhere in `t`.
pub open spec fn in_table(t: Seq<Scalar>, v: Scalar) -> bool {
    exists|j: int| 0 <= j < t.len() && t[j] == v
}

/// `p` is the first position of `t` that holds its value.
pub open spec fn first_occurrence(t: Seq<Scalar>, p: int) -> bool {
    &&& 0 <= p < t.len()
    &&& forall|j: int| 0 <= j < p ==> t[j] != t[p]
}

/// The index set and the column map for the first `n` lookup values:
/// `idx` holds, in the order in which the lookup first names them, the first
/// table position of each distinct value, and `col[i]` is where the value of
/// `f[i]` stands in `idx`, so that `t[idx[col[i]]] == f[i]`.
pub open spec fn index_map_prefix(
    t: Seq<Scalar>,
    f: Seq<Scalar>,
    idx: Seq<usize>,
    col: Seq<usize>,
    n: int,
) -> bool {
    &&& 0 <= n <= f.len()
    &&& col.len() == n
    &&& idx.len() <= n
    &&& forall|a: int| 0 <= a < idx.len() ==> first_occurrence(t, #[trigger] idx[a] as int)
    &&& forall|a: int, b: int|
        0 <= a < b < idx.len() ==> t[#[trigger] idx[a] as int] != t[#[trigger] idx[b] as int]
    &&& forall|i: int|
        0 <= i < n ==> #[trigger] col[i] < idx.len() && t[idx[col[i] as int] as int] == f[i]
    &&& forall|a: int| 0 <= a < idx.len() ==> #[trigger] named_before(col, n, a)
    &&& forall|i: int, a: int|
        0 <= i < n && 0 <= a < col[i] ==> #[trigger] named_before(col, i, a)
}

/// Column `a` is the column of some lookup value before position `n`.
pub open spec fn named_before(col: Seq<usize>, n: int, a: int) -> bool {
    exists|j: int| 0 <= j < n && col[j] == a
}

/// The index set and the column map of the whole lookup vector `f`.
pub open spec fn index_map(t: Seq<Scalar>, f: Seq<Scalar>, idx: Seq<usize>, col: Seq<usize>) -> bool {
    index_map_prefix(t, f, idx, col, f.len() as int)
}

/// Derives the index set `I` (first table position of each distinct lookup
/// value, in order of first appearance in the lookup) and the column map.
/// Fails with `Witness` exactly when some lookup value is not in the table.
pub fn extract_index(table: &Vec<Scalar>, lookup: &Vec<Scalar>) -> (r: Result<
    (Vec<usize>, Vec<usize>),
    BalooError,
>)
    ensures
        r is Err <==> exists|i: int| 0 <= i < lookup.len() && !in_table(table@, #[trigger] lookup@[i]),
        r matches Err(e) ==> e == BalooError::Witness,
        r matches Ok((idx, col)) ==> index_map(table@, lookup@, idx@, col@),
{
    let mut idx: Vec<usize> = Vec::new();
    let mut col: Vec<usize> = Vec::new();
    for i in 0..lookup.len()
        invariant
            index_map_prefix(table@, lookup@, idx@, col@, i as int),
            forall|i2: int| 0 <= i2 < i ==> in_table(table@, #[trigger] lookup@[i2]),
    {
        let v = lookup[i];
        let mut a: usize = 0;
        let mut found = false;
        while a < idx.len()
            invariant
                index_map_prefix(table@, lookup@, idx@, col@, i as int),
                i < lookup.len(),
                v == lookup@[i as int],
                a <= idx.len(),
                found ==> a < idx.len() && table@[idx@[a as int] as int] == v,
                !found ==> forall|b: int| 0 <= b < a ==> table@[idx@[b] as int] != v,
            ensures
                found ==> a < idx.len() && table@[idx@[a as int] as int] == v,
                !found ==> forall|b: int| 0 <= b < idx.len() ==> table@[idx@[b] as int] != v,
            decreases idx.len() - a, if found { 0int } else { 1int },
        {
            if table[idx[a]] == v {
                found = true;
                break;
            }
            a = a + 1;
        }
        if found {
            assert(in_table(table@, lookup@[i as int])) by {
                assert(table@[idx@[a as int] as int] == v);
            }
            let ghost old_col = col@;
            col.push(a);
            assert forall|b: int| 0 <= b < idx.len() implies #[trigger] named_before(col@, i + 1, b) by {
                assert(named_before(old_col, i as int, b));
                let j = choose|j: int| 0 <= j < i && old_col[j] == b;
                assert(col@[j] == b);
            }
            assert forall|j: int, c: int|
                0 <= j < i + 1 && 0 <= c < col@[j] implies #[trigger] named_before(col@, j, c) by {
                if j < i {
                    assert(named_before(old_col, j, c));
                    let j2 = choose|j2: int| 0 <= j2 < j && old_col[j2] == c;
                    assert(col@[j2] == c);
                } else {
                    assert(c < idx.len());
                    assert(named_before(old_col, i as int, c));
                    let j2 = choose|j2: int| 0 <= j2 < i && old_col[j2] == c;
                    assert(col@[j2] == c);
                }
            }
        } else {
            let mut p: usize = 0;
            while p < table.len() && table[p] != v
                invariant
                    p <= table.len(),
                    forall|j: int| 0 <= j < p ==> table@[j] != v,
                decreases table.len() - p,
            {
                p = p + 1;
            }
            if p == table.len() {
                assert(!in_table(table@, lookup@[i as int]));
                return Err(BalooError::Witness);
            }
            assert(in_table(table@, lookup@[i as int])) by {
                assert(table@[p as int] == v);
            }
            let ghost old_col = col@;
            let ghost old_idx = idx@;
            col.push(idx.len());
            idx.push(p);
            assert forall|b: int| 0 <= b < idx.len() implies #[trigger] named_before(col@, i + 1, b) by {
                if b < old_idx.len() {
                    assert(named_before(old_col, i as int, b));
                let j = choose|j: int| 0 <= j < i && old_col[j] == b;
                    assert(col@[j] == b);
                } else {
                    assert(col@[i as int] == b);
                }
            }
            assert forall|j: int, c: int|
                0 <= j < i + 1 && 0 <= c < col@[j] implies #[trigger] named_before(col@, j, c) by {
                if j < i {
                    assert(named_before(old_col, j, c));
                    let j2 = choose|j2: int| 0 <= j2 < j && old_col[j2] == c;
                    assert(col@[j2] == c);
                } else {
                    assert(c < old_idx.len());
                    assert(named_before(old_col, i as int, c));
                    let j2 = choose|j2: int| 0 <= j2 < i && old_col[j2] == c;
                    assert(col@[j2] == c);
                }
            }
            assert forall|a2: int, b: int|
                0 <= a2 < b < idx.len() implies table@[#[trigger] idx@[a2] as int]
                != table@[#[trigger] idx@[b] as int] by {
                if b == old_idx.len() {
                    assert(table@[old_idx[a2] as int] != v);
                }
            }
        }
    }
    Ok((idx, col))
}

} // verus!
