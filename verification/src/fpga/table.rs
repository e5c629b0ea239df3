//! Truth tables: contradicting rows, and rows that repeat earlier ones.

use vstd::prelude::*;

use crate::parser::ast::{rows_of, Row};

verus! {

/// Two rows have the same pattern and different values.
pub open spec fn ambiguous(rows: Seq<Row>) -> bool {
    exists|j: int, k: int|
        0 <= j < k < rows.len() && (#[trigger] rows[j]).0 == (#[trigger] rows[k]).0 && rows[j].1
            != rows[k].1
}

/// An earlier row has the pattern of row `k`.
pub open spec fn seen_before(rows: Seq<Row>, k: int) -> bool {
    exists|j: int| 0 <= j < k && (#[trigger] rows[j]).0 == rows[k].0
}

/// The rows of `rows` without those whose pattern an earlier row has.
pub open spec fn collapse(rows: Seq<Row>) -> Seq<Row>
    decreases rows.len(),
{
    if rows.len() == 0 {
        Seq::<Row>::empty()
    } else if seen_before(rows, rows.len() - 1) {
        collapse(rows.drop_last())
    } else {
        collapse(rows.drop_last()).push(rows.last())
    }
}

/// Dropping the rows after the first `k` never adds a row to the collapsed
/// table.
pub proof fn lemma_collapse_prefix(rows: Seq<Row>, k: int)
    requires
        0 <= k <= rows.len(),
    ensures
        collapse(rows.take(k)).len() <= collapse(rows).len(),
    decreases rows.len() - k,
{
    if k == rows.len() {
        assert(rows.take(k) =~= rows);
    } else {
        lemma_collapse_step(rows, k);
        lemma_collapse_prefix(rows, k + 1);
    }
}

/// How the collapsed table grows when row `k` is added to the first `k`
/// rows.
pub proof fn lemma_collapse_step(rows: Seq<Row>, k: int)
    requires
        0 <= k < rows.len(),
    ensures
        collapse(rows.take(k + 1)) == if seen_before(rows, k) {
            collapse(rows.take(k))
        } else {
            collapse(rows.take(k)).push(rows[k])
        },
{
    let longer = rows.take(k + 1);
    assert(longer.drop_last() =~= rows.take(k));
    assert(longer.last() == rows[k]);
    if seen_before(rows, k) {
        let j = choose|j: int| 0 <= j < k && (#[trigger] rows[j]).0 == rows[k].0;
        assert(longer[j] == rows[j]);
        assert(seen_before(longer, k));
    }
    if seen_before(longer, k) {
        let j = choose|j: int| 0 <= j < k && (#[trigger] longer[j]).0 == longer[k].0;
        assert(longer[j] == rows[j]);
        assert(seen_before(rows, k));
    }
}

/// The index of the first row that has the pattern of row `k`.
pub fn first_with_pattern(patterns: &Vec<(String, String)>, k: usize) -> (j: usize)
    requires
        k < patterns@.len(),
    ensures
        j <= k,
        patterns@[j as int].0@ == patterns@[k as int].0@,
        forall|i: int| 0 <= i < j ==> (#[trigger] patterns@[i]).0@ != patterns@[k as int].0@,
        j < k <==> seen_before(rows_of(patterns@), k as int),
{
    let mut j: usize = 0;
    while j < k
        invariant
            j <= k,
            k < patterns@.len(),
            forall|i: int| 0 <= i < j ==> (#[trigger] patterns@[i]).0@ != patterns@[k as int].0@,
        ensures
            j < k ==> patterns@[j as int].0@ == patterns@[k as int].0@,
        decreases k - j,
    {
        if patterns[j].0 == patterns[k].0 {
            break;
        }
        j = j + 1;
    }
    proof {
        let rows = rows_of(patterns@);
        if j < k {
            assert(rows[j as int].0 == rows[k as int].0);
        } else {
            assert forall|i: int| 0 <= i < k implies (#[trigger] rows[i]).0 != rows[k as int].0 by {
                assert(patterns@[i].0@ != patterns@[k as int].0@);
            }
        }
    }
    j
}

/// Whether two rows of the table have the same pattern and different
/// values.
pub fn is_ambiguous(patterns: &Vec<(String, String)>) -> (b: bool)
    ensures
        b == ambiguous(rows_of(patterns@)),
{
    let ghost rows = rows_of(patterns@);
    let n: usize = patterns.len();
    let mut k: usize = 0;
    while k < n
        invariant
            k <= n,
            n == patterns@.len(),
            rows == rows_of(patterns@),
            forall|a: int, b: int|
                0 <= a < b < k && (#[trigger] rows[a]).0 == (#[trigger] rows[b]).0 ==> rows[a].1
                    == rows[b].1,
        decreases n - k,
    {
        let j: usize = first_with_pattern(patterns, k);
        if j < k && !(patterns[j].1 == patterns[k].1) {
            assert(rows[j as int].0 == rows[k as int].0 && rows[j as int].1 != rows[k as int].1);
            return true;
        }
        proof {
            assert forall|a: int, b: int|
                0 <= a < b < k + 1 && (#[trigger] rows[a]).0 == (#[trigger] rows[b]).0 implies rows[a].1
                == rows[b].1 by {
                if b == k {
                    assert(patterns@[a].0@ == patterns@[k as int].0@);
                    assert(j <= a);
                    assert(rows[j as int].0 == rows[a].0);
                    assert(rows[j as int].1 == rows[k as int].1);
                    if j < a {
                        assert(rows[j as int].1 == rows[a].1);
                    }
                }
            }
        }
        k = k + 1;
    }
    false
}

/// A collapsed table has no more rows than the table it came from.
pub proof fn lemma_collapse_len(rows: Seq<Row>)
    ensures
        collapse(rows).len() <= rows.len(),
    decreases rows.len(),
{
    if rows.len() > 0 {
        lemma_collapse_len(rows.drop_last());
    }
}

/// Every row of a collapsed table is a row of the table it came from.
pub proof fn lemma_collapse_member(rows: Seq<Row>, k: int)
    requires
        0 <= k < collapse(rows).len(),
    ensures
        exists|j: int| 0 <= j < rows.len() && #[trigger] rows[j] == collapse(rows)[k],
    decreases rows.len(),
{
    let init = rows.drop_last();
    let last = rows.len() - 1;
    if !seen_before(rows, last) && k == collapse(init).len() {
        assert(rows[last] == collapse(rows)[k]);
    } else {
        lemma_collapse_member(init, k);
        let j = choose|j: int| 0 <= j < init.len() && #[trigger] init[j] == collapse(init)[k];
        assert(rows[j] == collapse(rows)[k]);
    }
}

} // verus!
