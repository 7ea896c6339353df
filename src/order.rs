//! The order in which sorted tables put their rows.
use crate::table::{Cell, Value};
use vstd::prelude::*;

verus! {

/// Lexicographic order on byte strings; a proper prefix comes first.
pub open spec fn bytes_lt(a: Seq<u8>, b: Seq<u8>) -> bool
    decreases a.len(),
{
    if a.len() == 0 {
        b.len() > 0
    } else if b.len() == 0 {
        false
    } else if a[0] != b[0] {
        a[0] < b[0]
    } else {
        bytes_lt(a.drop_first(), b.drop_first())
    }
}

/// The rank of a cell's kind: nulls first, then integers, then byte strings.
pub open spec fn cell_rank(c: Cell) -> int {
    match c {
        Cell::Null => 0,
        Cell::UInt(_) => 1,
        Cell::Bytes(_) => 2,
    }
}

/// Ascending order on cells.
pub open spec fn cell_lt(a: Cell, b: Cell) -> bool {
    match (a, b) {
        (Cell::UInt(x), Cell::UInt(y)) => x < y,
        (Cell::Bytes(x), Cell::Bytes(y)) => bytes_lt(x, y),
        _ => cell_rank(a) < cell_rank(b),
    }
}

/// Lexicographic order on tuples of cells.
pub open spec fn key_lt(a: Seq<Cell>, b: Seq<Cell>) -> bool
    decreases a.len(),
{
    if a.len() == 0 || b.len() == 0 {
        false
    } else if cell_lt(a[0], b[0]) {
        true
    } else if cell_lt(b[0], a[0]) {
        false
    } else {
        key_lt(a.drop_first(), b.drop_first())
    }
}

proof fn lemma_bytes_order(a: Seq<u8>, b: Seq<u8>, c: Seq<u8>)
    ensures
        !bytes_lt(a, a),
        bytes_lt(a, b) && bytes_lt(b, c) ==> bytes_lt(a, c),
        !bytes_lt(a, b) && !bytes_lt(b, a) ==> a == b,
    decreases a.len(),
{
    if a.len() > 0 {
        lemma_bytes_order(a.drop_first(), b.drop_first(), c.drop_first());
        if b.len() > 0 && a[0] == b[0] && !bytes_lt(a, b) && !bytes_lt(b, a) {
            assert(a == seq![a[0]] + a.drop_first());
            assert(b == seq![b[0]] + b.drop_first());
        }
    } else if !bytes_lt(b, a) && !bytes_lt(a, b) {
        assert(b.len() == 0);
        assert(a =~= b);
    }
}

proof fn lemma_cell_order(a: Cell, b: Cell, c: Cell)
    ensures
        !cell_lt(a, a),
        cell_lt(a, b) && cell_lt(b, c) ==> cell_lt(a, c),
        !cell_lt(a, b) && !cell_lt(b, a) ==> a == b,
{
    match (a, b, c) {
        (Cell::Bytes(x), Cell::Bytes(y), Cell::Bytes(z)) => {
            lemma_bytes_order(x, y, z);
        },
        (Cell::Bytes(x), Cell::Bytes(y), _) => {
            lemma_bytes_order(x, y, x);
        },
        (Cell::Bytes(x), _, _) => {
            lemma_bytes_order(x, x, x);
        },
        _ => {},
    }
}

/// Lexicographic order on key tuples of one length is a strict total order.
pub proof fn lemma_key_order(a: Seq<Cell>, b: Seq<Cell>, c: Seq<Cell>)
    requires
        a.len() == b.len(),
        b.len() == c.len(),
    ensures
        !key_lt(a, a),
        key_lt(a, b) ==> !key_lt(b, a),
        key_lt(a, b) && key_lt(b, c) ==> key_lt(a, c),
        !key_lt(a, b) && !key_lt(b, a) ==> a == b,
    decreases a.len(),
{
    if a.len() > 0 {
        lemma_cell_order(a[0], b[0], c[0]);
        lemma_cell_order(b[0], a[0], c[0]);
        lemma_cell_order(a[0], c[0], b[0]);
        lemma_cell_order(b[0], c[0], a[0]);
        lemma_cell_order(c[0], a[0], b[0]);
        lemma_cell_order(a[0], b[0], a[0]);
        lemma_key_order(a.drop_first(), b.drop_first(), c.drop_first());
        if !key_lt(a, b) && !key_lt(b, a) {
            assert(a == seq![a[0]] + a.drop_first());
            assert(b == seq![b[0]] + b.drop_first());
        }
    } else {
        assert(a =~= b);
    }
}

/// Whether one byte string comes before another.
pub fn bytes_less(a: &Vec<u8>, b: &Vec<u8>) -> (r: bool)
    ensures
        r == bytes_lt(a@, b@),
{
    let mut i: usize = 0;
    assert(a@.skip(0) =~= a@);
    assert(b@.skip(0) =~= b@);
    while i < a.len() && i < b.len()
        invariant
            i <= a@.len(),
            i <= b@.len(),
            bytes_lt(a@, b@) == bytes_lt(a@.skip(i as int), b@.skip(i as int)),
        decreases a@.len() - i,
    {
        assert(a@.skip(i as int).drop_first() =~= a@.skip(i + 1));
        assert(b@.skip(i as int).drop_first() =~= b@.skip(i + 1));
        if a[i] != b[i] {
            return a[i] < b[i];
        }
        i = i + 1;
    }
    i == a.len() && i < b.len()
}

/// Whether one cell comes before another.
pub fn cell_less(a: &Value, b: &Value) -> (r: bool)
    ensures
        r == cell_lt(a@, b@),
{
    match (a, b) {
        (Value::UInt(x), Value::UInt(y)) => *x < *y,
        (Value::Bytes(x), Value::Bytes(y)) => bytes_less(x, y),
        (Value::Null, Value::Null) => false,
        (Value::Null, _) => true,
        (Value::UInt(_), Value::Bytes(_)) => true,
        _ => false,
    }
}

/// Whether `p` lists each of `0..n` exactly once.
pub open spec fn is_permutation(p: Seq<usize>, n: int) -> bool {
    &&& p.len() == n
    &&& forall|a: int| 0 <= a < p.len() ==> #[trigger] p[a] < n
    &&& forall|a: int, b: int| 0 <= a < p.len() && 0 <= b < p.len() && a != b ==> p[a] != p[b]
}

/// Whether the keys of `ks`, taken in the order `p`, never decrease.
pub open spec fn sorted_by(ks: Seq<Seq<Cell>>, p: Seq<usize>) -> bool {
    forall|a: int, b: int| 0 <= a < b < p.len() ==> !key_lt(ks[p[b] as int], ks[p[a] as int])
}

/// Whether `p` keeps rows with equal keys in their original order.
pub open spec fn stable_by(ks: Seq<Seq<Cell>>, p: Seq<usize>) -> bool {
    forall|a: int, b: int|
        0 <= a < b < p.len() && ks[p[a] as int] == ks[p[b] as int] ==> p[a] < p[b]
}

/// All keys have one length.
pub open spec fn uniform_keys(ks: Seq<Seq<Cell>>, w: nat) -> bool {
    forall|r: int| 0 <= r < ks.len() ==> #[trigger] ks[r].len() == w
}

/// One step of a stable insertion sort: the new row `i` goes at `j`, after
/// every row whose key is not greater, and the order stays a stable sorted
/// permutation.
pub proof fn lemma_insert_step(ks: Seq<Seq<Cell>>, w: nat, p: Seq<usize>, i: usize, j: int)
    requires
        uniform_keys(ks, w),
        i < ks.len(),
        is_permutation(p, i as int),
        sorted_by(ks, p),
        stable_by(ks, p),
        0 <= j <= p.len(),
        forall|m: int| j <= m < p.len() ==> key_lt(ks[i as int], #[trigger] ks[p[m] as int]),
        j > 0 ==> !key_lt(ks[i as int], ks[p[j - 1] as int]),
    ensures
        is_permutation(p.insert(j, i), i + 1),
        sorted_by(ks, p.insert(j, i)),
        stable_by(ks, p.insert(j, i)),
{
    let q = p.insert(j, i);
    p.insert_ensures(j, i);
    let x = ks[i as int];
    assert forall|a: int| 0 <= a < q.len() implies #[trigger] q[a] < i + 1 by {
        if a > j {
            assert(q[a] == p[a - 1]);
        }
    }
    assert forall|a: int, b: int| 0 <= a < q.len() && 0 <= b < q.len() && a != b implies q[a]
        != q[b] by {
        if a < j {
            assert(q[a] == p[a]);
        } else if a > j {
            assert(q[a] == p[a - 1]);
        }
        if b < j {
            assert(q[b] == p[b]);
        } else if b > j {
            assert(q[b] == p[b - 1]);
        }
    }
    assert forall|a: int, b: int| 0 <= a < b < q.len() implies !key_lt(
        ks[q[b] as int],
        ks[q[a] as int],
    ) && (ks[q[a] as int] == ks[q[b] as int] ==> q[a] < q[b]) by {
        if a == j {
            let y = ks[p[b - 1] as int];
            assert(q[b] == p[b - 1]);
            assert(key_lt(x, y));
            lemma_key_order(x, y, x);
        } else if b == j {
            assert(q[a] == p[a]);
            let y = ks[p[a] as int];
            let z = ks[p[j - 1] as int];
            if a < j - 1 {
                assert(!key_lt(z, y));
            }
            lemma_key_order(x, y, z);
            lemma_key_order(y, z, x);
        } else {
            let a0 = if a < j { a } else { a - 1 };
            let b0 = if b < j { b } else { b - 1 };
            assert(q[a] == p[a0]);
            assert(q[b] == p[b0]);
        }
    }
}

} // verus!
