//! The nested tree of directory and file nodes, with rolled-up sizes.
use crate::api::UpFileV;
use crate::collate::flip;
use crate::collate::new_collator;
use crate::collate::seg_cmp;
use crate::collate::Collation;
use crate::collate::SegOrdering;
use crate::filerow::FileRow;
use crate::filerow::contains_dir_row;
use crate::filerow::dir_row;
use crate::filerow::dirs_unique;
use crate::filerow::own_size;
use crate::filerow::rows_closed;
use crate::filerow::RowV;
use crate::seqs::dv;
use vstd::prelude::*;

verus! {

broadcast use crate::seqs::group_dv;

/// One node of the nested view: a directory or a file, its rolled-up size,
/// and its children in sibling order.
#[derive(Debug, PartialEq)]
pub struct FileView {
    pub depth: usize,
    pub name: String,
    pub children: Vec<FileView>,
    pub size: u64,
    pub so: Option<usize>,
}

/// The spec-level shape of a tree node.
pub ghost struct TreeV {
    pub name: Seq<char>,
    pub size: int,
    pub so: Option<usize>,
    pub depth: int,
    pub children: Seq<TreeV>,
}

/// The spec-level shape of a list of nodes, in order.
pub open spec fn trees_view(s: Seq<FileView>) -> Seq<TreeV>
    decreases s,
{
    if s.len() == 0 {
        Seq::empty()
    } else {
        seq![tree_view(s[0])] + trees_view(s.drop_first())
    }
}

/// The spec-level shape of one node.
pub open spec fn tree_view(t: FileView) -> TreeV
    decreases t,
{
    TreeV {
        name: t.name@,
        size: t.size as int,
        so: t.so,
        depth: t.depth as int,
        children: trees_view(t.children@),
    }
}

/// The view of a node list is the pointwise view.
pub broadcast proof fn lemma_trees_view_is_map(s: Seq<FileView>)
    ensures
        #[trigger] trees_view(s) == Seq::new(s.len(), |i: int| tree_view(s[i])),
    decreases s,
{
    if s.len() > 0 {
        lemma_trees_view_is_map(s.drop_first());
        assert(trees_view(s) =~= Seq::new(s.len(), |i: int| tree_view(s[i])));
    } else {
        assert(trees_view(s) =~= Seq::new(s.len(), |i: int| tree_view(s[i])));
    }
}

/// The sibling order: name first under the collated segment order, then
/// nodes without children before nodes with children, then size
/// descending.
pub open spec fn sib_cmp(a: TreeV, b: TreeV) -> SegOrdering {
    match seg_cmp(a.name, b.name) {
        SegOrdering::Equal => {
            if a.children.len() == 0 && b.children.len() > 0 {
                SegOrdering::Less
            } else if a.children.len() > 0 && b.children.len() == 0 {
                SegOrdering::Greater
            } else if a.size > b.size {
                SegOrdering::Less
            } else if a.size == b.size {
                SegOrdering::Equal
            } else {
                SegOrdering::Greater
            }
        },
        o => o,
    }
}

/// Adjacent siblings never step down under the sibling order.
pub open spec fn sib_sorted(s: Seq<TreeV>) -> bool {
    forall|i: int|
        0 <= i < s.len() - 1 ==> (#[trigger] sib_cmp(s[i], s[i + 1])) != SegOrdering::Greater
}

/// Every node's children, all the way down, stand in the sibling order.
pub open spec fn all_sib_sorted(t: TreeV) -> bool
    decreases t,
{
    sib_sorted(t.children) && forall|i: int|
        0 <= i < t.children.len() ==> all_sib_sorted(#[trigger] t.children[i])
}

/// Inserting one node into a sibling list, scanning from the right past
/// every strictly greater node.
pub open spec fn insert_tree(s: Seq<TreeV>, x: TreeV) -> Seq<TreeV>
    decreases s.len(),
{
    if s.len() > 0 && sib_cmp(s.last(), x) == SegOrdering::Greater {
        insert_tree(s.drop_last(), x).push(s.last())
    } else {
        s.push(x)
    }
}

/// Insertion sort of a sibling list, element by element from the left.
pub open spec fn sort_trees_spec(s: Seq<TreeV>) -> Seq<TreeV>
    decreases s.len(),
{
    if s.len() == 0 {
        Seq::empty()
    } else {
        insert_tree(sort_trees_spec(s.drop_last()), s.last())
    }
}

/// The size-summing function over nodes, as one shared term.
pub open spec fn tree_size_f() -> spec_fn(TreeV) -> int {
    |t: TreeV| t.size
}

/// The total size of a list of nodes.
pub open spec fn sum_sizes(s: Seq<TreeV>) -> int {
    crate::seqs::sum_by(s, tree_size_f())
}

/// Whether `r`'s path is one segment below `p`.
pub open spec fn is_child_of(r: RowV, p: Seq<Seq<char>>) -> bool {
    r.path.len() == p.len() + 1 && r.path.take(p.len() as int) == p
}

/// Whether `r`'s path lies strictly below `p`.
pub open spec fn strictly_below(r: RowV, p: Seq<Seq<char>>) -> bool {
    r.path.len() > p.len() && r.path.take(p.len() as int) == p
}

/// The weight of a row in the subtree below `p`: its own bytes if it lies
/// strictly below, else nothing.
pub open spec fn below_f(p: Seq<Seq<char>>) -> spec_fn(RowV) -> int {
    |r: RowV| if strictly_below(r, p) {
        own_size(r)
    } else {
        0
    }
}

/// The bytes of all rows strictly below `p`.
pub open spec fn sum_below(rows: Seq<RowV>, p: Seq<Seq<char>>) -> int {
    crate::seqs::sum_by(rows, below_f(p))
}

/// The longest path length among the rows.
pub open spec fn max_plen(rows: Seq<RowV>) -> int
    decreases rows.len(),
{
    if rows.len() == 0 {
        0
    } else {
        let m = max_plen(rows.drop_last());
        if rows.last().path.len() > m {
            rows.last().path.len() as int
        } else {
            m
        }
    }
}

/// No row's path is longer than the longest.
pub proof fn lemma_max_plen_bound(rows: Seq<RowV>, i: int)
    requires
        0 <= i < rows.len(),
    ensures
        rows[i].path.len() <= max_plen(rows),
    decreases rows.len(),
{
    if i == rows.len() - 1 {
    } else {
        lemma_max_plen_bound(rows.drop_last(), i);
    }
}

/// The trees of the candidate rows that sit one segment below `p`, in
/// candidate order, before the sibling sort.
pub open spec fn build_children(cands: Seq<RowV>, rows: Seq<RowV>, p: Seq<Seq<char>>) -> Seq<TreeV>
    decreases max_plen(rows) + 1 - p.len(), cands.len(),
{
    if cands.len() == 0 {
        Seq::empty()
    } else {
        let rest = build_children(cands.drop_first(), rows, p);
        if is_child_of(cands[0], p) && cands[0].path.len() <= max_plen(rows) {
            seq![build_tree(cands[0], rows)] + rest
        } else {
            rest
        }
    }
}

/// The tree grown from `target` over the row set: directories gather the
/// rows one segment below them, sorted by the sibling order, and sizes
/// roll up bottom-up.
pub open spec fn build_tree(target: RowV, rows: Seq<RowV>) -> TreeV
    decreases max_plen(rows) + 1 - target.path.len(), rows.len() + 1,
{
    let kids = if target.dir {
        sort_trees_spec(build_children(rows, rows, target.path))
    } else {
        Seq::empty()
    };
    TreeV {
        name: if target.path.len() == 0 {
            Seq::empty()
        } else {
            target.path.last()
        },
        size: own_size(target) + sum_sizes(kids),
        so: target.so,
        depth: target.path.len() as int,
        children: kids,
    }
}

/// Inserting a node adds it to the sibling list's contents.
proof fn lemma_insert_tree_multiset(s: Seq<TreeV>, x: TreeV)
    ensures
        insert_tree(s, x).to_multiset() == s.to_multiset().insert(x),
    decreases s.len(),
{
    broadcast use vstd::seq_lib::group_to_multiset_ensures;
    broadcast use vstd::multiset::group_multiset_axioms;

    if s.len() > 0 && sib_cmp(s.last(), x) == SegOrdering::Greater {
        lemma_insert_tree_multiset(s.drop_last(), x);
        assert(s.drop_last().push(s.last()) =~= s);
        assert(insert_tree(s, x).to_multiset() == insert_tree(
            s.drop_last(),
            x,
        ).to_multiset().insert(s.last()));
        assert(s.drop_last().to_multiset().insert(x).insert(s.last())
            =~= s.drop_last().to_multiset().insert(s.last()).insert(x));
    }
}

/// The sibling sort keeps exactly the nodes it was given.
pub proof fn lemma_sort_trees_multiset(s: Seq<TreeV>)
    ensures
        sort_trees_spec(s).to_multiset() == s.to_multiset(),
    decreases s.len(),
{
    broadcast use vstd::seq_lib::group_to_multiset_ensures;

    if s.len() > 0 {
        lemma_sort_trees_multiset(s.drop_last());
        lemma_insert_tree_multiset(sort_trees_spec(s.drop_last()), s.last());
        assert(s.drop_last().push(s.last()) =~= s);
    }
}

/// The whole subtree bytes of a candidate, where it is a child.
spec fn child_total_f(rows: Seq<RowV>, p: Seq<Seq<char>>) -> spec_fn(RowV) -> int {
    |c: RowV|
        if is_child_of(c, p) && c.path.len() <= max_plen(rows) {
            build_tree(c, rows).size
        } else {
            0
        }
}

/// The bytes a child row itself carries.
spec fn child_own_f(p: Seq<Seq<char>>) -> spec_fn(RowV) -> int {
    |c: RowV|
        if is_child_of(c, p) {
            own_size(c)
        } else {
            0
        }
}

/// The bytes below a directory child.
spec fn child_below_f(rows: Seq<RowV>, p: Seq<Seq<char>>) -> spec_fn(RowV) -> int {
    |c: RowV|
        if is_child_of(c, p) && c.dir {
            sum_below(rows, c.path)
        } else {
            0
        }
}

/// The bytes of rows more than one level below `p`.
spec fn deep_f(p: Seq<Seq<char>>) -> spec_fn(RowV) -> int {
    |r: RowV|
        if strictly_below(r, p) && r.path.len() > p.len() + 1 {
            own_size(r)
        } else {
            0
        }
}

/// The bytes `r` contributes below the directory child `c` of `p`.
spec fn pair_f(p: Seq<Seq<char>>) -> spec_fn(RowV, RowV) -> int {
    |c: RowV, r: RowV|
        if is_child_of(c, p) && c.dir && strictly_below(r, c.path) {
            own_size(r)
        } else {
            0
        }
}

/// The children's trees sum to the candidates' subtree bytes.
proof fn lemma_build_children_sum(cands: Seq<RowV>, rows: Seq<RowV>, p: Seq<Seq<char>>)
    ensures
        sum_sizes(build_children(cands, rows, p)) == crate::seqs::sum_by(
            cands,
            child_total_f(rows, p),
        ),
    decreases cands.len(),
{
    if cands.len() == 0 {
    } else {
        lemma_build_children_sum(cands.drop_first(), rows, p);
        crate::seqs::lemma_sum_by_first(cands, child_total_f(rows, p));
        if is_child_of(cands[0], p) && cands[0].path.len() <= max_plen(rows) {
            let t = build_tree(cands[0], rows);
            let rest = build_children(cands.drop_first(), rows, p);
            crate::seqs::lemma_sum_by_concat(seq![t], rest, tree_size_f());
            assert(seq![t].drop_last() =~= Seq::<TreeV>::empty());
            assert(crate::seqs::sum_by(seq![t], tree_size_f()) == t.size);
        }
    }
}

/// Splitting the bytes below `p` into the children's own bytes and the
/// bytes below each directory child: the double-counting argument behind
/// the rollup.
proof fn lemma_partition(rows: Seq<RowV>, p: Seq<Seq<char>>)
    requires
        rows_closed(rows),
        dirs_unique(rows),
    ensures
        sum_below(rows, p) == crate::seqs::sum_by(rows, child_own_f(p)) + crate::seqs::sum_by(
            rows,
            child_below_f(rows, p),
        ),
{
    // each row below `p` is a child or lies deeper
    assert forall|i: int|
        0 <= i < rows.len() implies below_f(p)(#[trigger] rows[i]) == child_own_f(p)(rows[i])
        + deep_f(p)(rows[i]) by {
        let r = rows[i];
        if strictly_below(r, p) && r.path.len() == p.len() + 1 {
            assert(is_child_of(r, p));
        } else if is_child_of(r, p) {
            assert(strictly_below(r, p));
        }
    }
    crate::seqs::lemma_sum_by_split(rows, below_f(p), child_own_f(p), deep_f(p));
    // the bytes below the directory children, summed child by child
    assert forall|i: int|
        0 <= i < rows.len() implies child_below_f(rows, p)(#[trigger] rows[i]) == crate::seqs::inner_of(
        rows,
        pair_f(p),
    )(rows[i]) by {
        let c = rows[i];
        if is_child_of(c, p) && c.dir {
            assert forall|m: int|
                0 <= m < rows.len() implies crate::seqs::curry(pair_f(p), c)(#[trigger] rows[m])
                == below_f(c.path)(rows[m]) by {}
            crate::seqs::lemma_sum_by_ext(rows, crate::seqs::curry(pair_f(p), c), below_f(c.path));
        } else {
            assert forall|m: int|
                0 <= m < rows.len() implies crate::seqs::curry(pair_f(p), c)(#[trigger] rows[m])
                == 0 by {}
            crate::seqs::lemma_sum_by_zero(rows, crate::seqs::curry(pair_f(p), c));
        }
    }
    crate::seqs::lemma_sum_by_ext(rows, child_below_f(rows, p), crate::seqs::inner_of(
        rows,
        pair_f(p),
    ));
    crate::seqs::lemma_sum_swap(rows, rows, pair_f(p));
    // column by column, the deep rows are counted exactly once each
    assert forall|m: int|
        0 <= m < rows.len() implies crate::seqs::col_of(rows, pair_f(p))(#[trigger] rows[m])
        == deep_f(p)(rows[m]) by {
        let r = rows[m];
        if strictly_below(r, p) && r.path.len() > p.len() + 1 {
            let q = r.path.take(p.len() as int + 1);
            assert(contains_dir_row(rows, q));
            let i0 = choose|i0: int| 0 <= i0 < rows.len() && rows[i0] == dir_row(q);
            assert(q.take(p.len() as int) =~= r.path.take(p.len() as int));
            assert(is_child_of(rows[i0], p));
            assert(strictly_below(r, rows[i0].path));
            assert forall|j: int|
                0 <= j < rows.len() && j != i0 implies crate::seqs::curry_t(pair_f(p), r)(
                #[trigger] rows[j],
            ) == 0 by {
                if is_child_of(rows[j], p) && rows[j].dir && strictly_below(r, rows[j].path) {
                    assert(rows[j].path =~= q);
                    if j < i0 {
                        assert(rows[j].path != rows[i0].path);
                    } else {
                        assert(rows[i0].path != rows[j].path);
                    }
                }
            }
            crate::seqs::lemma_sum_by_single(rows, crate::seqs::curry_t(pair_f(p), r), i0);
            assert(crate::seqs::curry_t(pair_f(p), r)(rows[i0]) == own_size(r));
        } else {
            assert forall|j: int|
                0 <= j < rows.len() implies crate::seqs::curry_t(pair_f(p), r)(#[trigger] rows[j])
                == 0 by {
                if is_child_of(rows[j], p) && rows[j].dir && strictly_below(r, rows[j].path) {
                    assert(r.path.take(p.len() as int) =~= rows[j].path.take(p.len() as int));
                    assert(strictly_below(r, p) && r.path.len() > p.len() + 1);
                }
            }
            crate::seqs::lemma_sum_by_zero(rows, crate::seqs::curry_t(pair_f(p), r));
        }
    }
    crate::seqs::lemma_sum_by_ext(rows, crate::seqs::col_of(rows, pair_f(p)), deep_f(p));
}

/// The rollup equation of the whole tree: a node's size is its own bytes
/// plus the bytes of every row strictly below it, provided every implied
/// ancestor is present exactly once.
pub proof fn lemma_build_tree_size(target: RowV, rows: Seq<RowV>)
    requires
        rows_closed(rows),
        dirs_unique(rows),
        target.path.len() <= max_plen(rows) + 1,
    ensures
        build_tree(target, rows).size == own_size(target) + if target.dir {
            sum_below(rows, target.path)
        } else {
            0
        },
    decreases max_plen(rows) + 1 - target.path.len(),
{
    if target.dir {
        let p = target.path;
        let kids0 = build_children(rows, rows, p);
        let kids = sort_trees_spec(kids0);
        lemma_sort_trees_multiset(kids0);
        crate::seqs::lemma_sum_by_permutation(kids, kids0, tree_size_f());
        lemma_build_children_sum(rows, rows, p);
        assert forall|i: int|
            0 <= i < rows.len() implies child_total_f(rows, p)(#[trigger] rows[i]) == child_own_f(
            p,
        )(rows[i]) + child_below_f(rows, p)(rows[i]) by {
            let c = rows[i];
            lemma_max_plen_bound(rows, i);
            if is_child_of(c, p) {
                lemma_build_tree_size(c, rows);
            }
        }
        crate::seqs::lemma_sum_by_split(
            rows,
            child_total_f(rows, p),
            child_own_f(p),
            child_below_f(rows, p),
        );
        lemma_partition(rows, p);
    }
}

/// Every row carries a non-negative byte count.
pub open spec fn sizes_nonneg(rows: Seq<RowV>) -> bool {
    forall|i: int| 0 <= i < rows.len() ==> own_size(#[trigger] rows[i]) >= 0
}

/// The zero weight.
spec fn zero_f() -> spec_fn(RowV) -> int {
    |r: RowV| 0
}

/// With non-negative sizes, the bytes below any path are non-negative.
proof fn lemma_sum_below_nonneg(rows: Seq<RowV>, p: Seq<Seq<char>>)
    requires
        sizes_nonneg(rows),
    ensures
        sum_below(rows, p) >= 0,
{
    crate::seqs::lemma_sum_by_zero(rows, zero_f());
    crate::seqs::lemma_sum_by_le(rows, zero_f(), below_f(p));
}

/// The longest path length is never negative.
proof fn lemma_max_plen_nonneg(rows: Seq<RowV>)
    ensures
        max_plen(rows) >= 0,
    decreases rows.len(),
{
    if rows.len() > 0 {
        lemma_max_plen_nonneg(rows.drop_last());
    }
}

/// A child's own bytes and the bytes below it fit within the bytes below
/// its parent.
proof fn lemma_sum_below_child(rows: Seq<RowV>, p: Seq<Seq<char>>, i: int)
    requires
        sizes_nonneg(rows),
        0 <= i < rows.len(),
        is_child_of(rows[i], p),
    ensures
        own_size(rows[i]) + sum_below(rows, rows[i].path) <= sum_below(rows, p),
{
    let c = rows[i];
    crate::seqs::lemma_sum_by_remove(rows, i, below_f(c.path));
    crate::seqs::lemma_sum_by_remove(rows, i, below_f(p));
    assert(below_f(c.path)(c) == 0);
    assert(strictly_below(c, p));
    assert(below_f(p)(c) == own_size(c));
    assert forall|j: int|
        0 <= j < rows.remove(i).len() implies below_f(c.path)(#[trigger] rows.remove(i)[j])
        <= below_f(p)(rows.remove(i)[j]) by {
        let r = rows.remove(i)[j];
        if j < i {
            assert(r == rows[j]);
        } else {
            assert(r == rows[j + 1]);
        }
        if strictly_below(r, c.path) {
            assert(r.path.take(p.len() as int) =~= c.path.take(p.len() as int));
            assert(strictly_below(r, p));
        }
    }
    crate::seqs::lemma_sum_by_le(rows.remove(i), below_f(c.path), below_f(p));
}

/// Every built child is the tree of some candidate child row.
proof fn lemma_build_children_elem(cands: Seq<RowV>, rows: Seq<RowV>, p: Seq<Seq<char>>, j: int)
    requires
        0 <= j < build_children(cands, rows, p).len(),
    ensures
        exists|i: int|
            0 <= i < cands.len() && is_child_of(#[trigger] cands[i], p) && cands[i].path.len()
                <= max_plen(rows) && build_children(cands, rows, p)[j] == build_tree(
                cands[i],
                rows,
            ),
    decreases cands.len(),
{
    if is_child_of(cands[0], p) && cands[0].path.len() <= max_plen(rows) {
        if j == 0 {
            assert(build_children(cands, rows, p)[0] == build_tree(cands[0], rows));
        } else {
            lemma_build_children_elem(cands.drop_first(), rows, p, j - 1);
            let i = choose|i: int|
                0 <= i < cands.drop_first().len() && is_child_of(
                    #[trigger] cands.drop_first()[i],
                    p,
                ) && cands.drop_first()[i].path.len() <= max_plen(rows) && build_children(
                    cands.drop_first(),
                    rows,
                    p,
                )[j - 1] == build_tree(cands.drop_first()[i], rows);
            assert(cands.drop_first()[i] == cands[i + 1]);
        }
    } else {
        lemma_build_children_elem(cands.drop_first(), rows, p, j);
        let i = choose|i: int|
            0 <= i < cands.drop_first().len() && is_child_of(#[trigger] cands.drop_first()[i], p)
                && cands.drop_first()[i].path.len() <= max_plen(rows) && build_children(
                cands.drop_first(),
                rows,
                p,
            )[j] == build_tree(cands.drop_first()[i], rows);
        assert(cands.drop_first()[i] == cands[i + 1]);
    }
}

/// Appending one candidate appends its tree, when it is a child.
proof fn lemma_build_children_snoc(cands: Seq<RowV>, x: RowV, rows: Seq<RowV>, p: Seq<Seq<char>>)
    ensures
        build_children(cands.push(x), rows, p) == if is_child_of(x, p) && x.path.len() <= max_plen(
            rows,
        ) {
            build_children(cands, rows, p).push(build_tree(x, rows))
        } else {
            build_children(cands, rows, p)
        },
    decreases cands.len(),
{
    let s = cands.push(x);
    if cands.len() == 0 {
        assert(s[0] == x);
        assert(s.drop_first() =~= Seq::<RowV>::empty());
        assert(build_children(s.drop_first(), rows, p) =~= Seq::<TreeV>::empty());
        assert(build_children(cands, rows, p) =~= Seq::<TreeV>::empty());
        if is_child_of(x, p) && x.path.len() <= max_plen(rows) {
            assert(build_children(s, rows, p) =~= build_children(cands, rows, p).push(
                build_tree(x, rows),
            ));
        } else {
            assert(build_children(s, rows, p) =~= build_children(cands, rows, p));
        }
    } else {
        assert(s.drop_first() =~= cands.drop_first().push(x));
        lemma_build_children_snoc(cands.drop_first(), x, rows, p);
        assert(s[0] == cands[0]);
        let t0 = build_tree(cands[0], rows);
        let brest_s = build_children(s.drop_first(), rows, p);
        let brest_c = build_children(cands.drop_first(), rows, p);
        if is_child_of(x, p) && x.path.len() <= max_plen(rows) {
            assert(brest_s == brest_c.push(build_tree(x, rows)));
            if is_child_of(cands[0], p) && cands[0].path.len() <= max_plen(rows) {
                assert(build_children(s, rows, p) == seq![t0] + brest_s);
                assert(build_children(cands, rows, p) == seq![t0] + brest_c);
                assert(seq![t0] + brest_c.push(build_tree(x, rows)) =~= (seq![t0]
                    + brest_c).push(build_tree(x, rows)));
            } else {
                assert(build_children(s, rows, p) == brest_s);
                assert(build_children(cands, rows, p) == brest_c);
            }
        } else {
            assert(brest_s == brest_c);
        }
    }
}

/// A node list's view after push.
proof fn lemma_trees_view_push(s: Seq<FileView>, x: FileView)
    ensures
        trees_view(s.push(x)) == trees_view(s).push(tree_view(x)),
{
    broadcast use lemma_trees_view_is_map;

    assert(trees_view(s.push(x)) =~= trees_view(s).push(tree_view(x)));
}

/// A node list's view after remove.
proof fn lemma_trees_view_remove(s: Seq<FileView>, i: int)
    requires
        0 <= i < s.len(),
    ensures
        trees_view(s.remove(i)) == trees_view(s).remove(i),
{
    broadcast use lemma_trees_view_is_map;

    assert(trees_view(s.remove(i)) =~= trees_view(s).remove(i));
}

/// A node list's view after insert.
proof fn lemma_trees_view_insert(s: Seq<FileView>, i: int, x: FileView)
    requires
        0 <= i <= s.len(),
    ensures
        trees_view(s.insert(i, x)) == trees_view(s).insert(i, tree_view(x)),
{
    broadcast use lemma_trees_view_is_map;

    assert(trees_view(s.insert(i, x)) =~= trees_view(s).insert(i, tree_view(x)));
}

/// Compares two sibling nodes: name first, then childless nodes first,
/// then size descending.
fn cmp_trees(a: &FileView, b: &FileView, coll: &Collation) -> (r: SegOrdering)
    ensures
        r == sib_cmp(tree_view(*a), tree_view(*b)),
        sib_cmp(tree_view(*b), tree_view(*a)) == flip(r),
{
    broadcast use lemma_trees_view_is_map;

    let c = coll.compare(a.name.as_str(), b.name.as_str());
    if c != SegOrdering::Equal {
        return c;
    }
    let ae = a.children.len() == 0;
    let be = b.children.len() == 0;
    proof {
        assert(ae == (tree_view(*a).children.len() == 0));
        assert(be == (tree_view(*b).children.len() == 0));
    }
    if ae && !be {
        SegOrdering::Less
    } else if !ae && be {
        SegOrdering::Greater
    } else if a.size > b.size {
        SegOrdering::Less
    } else if a.size == b.size {
        SegOrdering::Equal
    } else {
        SegOrdering::Greater
    }
}

/// Where the scan stops is where the insertion lands, for sibling lists.
proof fn lemma_insert_tree_at(s: Seq<TreeV>, x: TreeV, j: int)
    requires
        0 <= j <= s.len(),
        forall|k: int| j <= k < s.len() ==> sib_cmp(#[trigger] s[k], x) == SegOrdering::Greater,
        j > 0 ==> sib_cmp(s[j - 1], x) != SegOrdering::Greater,
    ensures
        insert_tree(s, x) == s.take(j) + seq![x] + s.skip(j),
    decreases s.len(),
{
    if j == s.len() {
        assert(insert_tree(s, x) == s.push(x));
        assert(s.take(j) + seq![x] + s.skip(j) =~= s.push(x));
    } else {
        assert(sib_cmp(s[s.len() - 1], x) == SegOrdering::Greater);
        assert(insert_tree(s, x) == insert_tree(s.drop_last(), x).push(s.last()));
        lemma_insert_tree_at(s.drop_last(), x, j);
        assert((s.drop_last().take(j) + seq![x] + s.drop_last().skip(j)).push(s.last()) =~= s.take(
            j,
        ) + seq![x] + s.skip(j));
    }
}

/// One insertion step of the sibling sort.
#[verifier::rlimit(50)]
proof fn lemma_tree_sort_step(dvpre: Seq<TreeV>, newdv: Seq<TreeV>, orig: Seq<TreeV>, i: int, j: int)
    requires
        1 <= i < dvpre.len(),
        dvpre.len() == orig.len(),
        0 <= j <= i,
        newdv == dvpre.remove(i).insert(j, dvpre[i]),
        dvpre.take(i) == sort_trees_spec(orig.take(i)),
        dvpre.skip(i) == orig.skip(i),
        sib_sorted(dvpre.take(i)),
        forall|k: int|
            j <= k < i ==> sib_cmp(#[trigger] dvpre[k], dvpre[i]) == SegOrdering::Greater
                && sib_cmp(dvpre[i], dvpre[k]) == SegOrdering::Less,
        j > 0 ==> sib_cmp(dvpre[j - 1], dvpre[i]) != SegOrdering::Greater,
    ensures
        newdv.take(i + 1) == sort_trees_spec(orig.take(i + 1)),
        newdv.skip(i + 1) == orig.skip(i + 1),
        sib_sorted(newdv.take(i + 1)),
{
    let x = dvpre[i];
    lemma_insert_tree_at(dvpre.take(i), x, j);
    let target = dvpre.take(i).take(j) + seq![x] + dvpre.take(i).skip(j);
    assert(insert_tree(dvpre.take(i), x) == target);
    assert(newdv.take(i + 1) =~= target);
    assert(orig.take(i + 1).drop_last() =~= orig.take(i));
    assert(orig.take(i + 1).last() == orig[i]);
    assert(dvpre.skip(i)[0] == orig.skip(i)[0]);
    assert(x == orig[i]);
    assert(sort_trees_spec(orig.take(i + 1)) == insert_tree(sort_trees_spec(orig.take(i)), orig[i]));
    assert(newdv.take(i + 1) == sort_trees_spec(orig.take(i + 1)));
    assert(newdv.skip(i + 1) =~= dvpre.skip(i + 1));
    assert(dvpre.skip(i + 1) =~= orig.skip(i + 1)) by {
        assert forall|k: int|
            0 <= k < dvpre.len() - i - 1 implies #[trigger] dvpre.skip(i + 1)[k] == orig.skip(
            i + 1,
        )[k] by {
            assert(dvpre.skip(i)[k + 1] == orig.skip(i)[k + 1]);
        }
    }
    assert forall|m: int|
        0 <= m < i implies sib_cmp(#[trigger] newdv.take(i + 1)[m], newdv.take(i + 1)[m + 1])
        != SegOrdering::Greater by {
        let s = dvpre.take(i);
        let t = newdv.take(i + 1);
        if m < j - 1 {
            assert(t[m] == s[m]);
            assert(t[m + 1] == s[m + 1]);
            assert(sib_cmp(s[m], s[m + 1]) != SegOrdering::Greater);
        } else if m == j - 1 {
            assert(t[m] == s[m]);
            assert(t[m + 1] == x);
            assert(sib_cmp(dvpre[j - 1], x) != SegOrdering::Greater);
        } else if m == j {
            assert(t[m] == x);
            assert(t[m + 1] == s[m]);
            assert(sib_cmp(x, dvpre[m]) == SegOrdering::Less);
        } else {
            assert(t[m] == s[m - 1]);
            assert(t[m + 1] == s[m]);
            let mp = m - 1;
            assert(sib_cmp(s[mp], s[mp + 1]) != SegOrdering::Greater);
            assert(s[mp + 1] == s[m]);
        }
    }
    assert(sib_sorted(newdv.take(i + 1)));
}

/// Sorts a sibling list in place; the result is exactly the spec-level
/// insertion sort under the sibling order, so adjacent nodes never step
/// down.
fn sort_trees(v: &mut Vec<FileView>, coll: &Collation)
    ensures
        trees_view(final(v)@) == sort_trees_spec(trees_view(old(v)@)),
        sib_sorted(trees_view(final(v)@)),
{
    broadcast use lemma_trees_view_is_map;

    let ghost orig = trees_view(old(v)@);
    if v.len() == 0 {
        proof {
            assert(trees_view(v@) =~= sort_trees_spec(orig));
        }
        return ;
    }
    let mut i: usize = 1;
    proof {
        assert(orig.take(1).drop_last() =~= Seq::<TreeV>::empty());
        assert(orig.take(1).last() == orig[0]);
        assert(sort_trees_spec(Seq::<TreeV>::empty()) == Seq::<TreeV>::empty());
        assert(insert_tree(Seq::<TreeV>::empty(), orig[0]) == Seq::<TreeV>::empty().push(orig[0]));
        assert(sort_trees_spec(orig.take(1)) == insert_tree(
            sort_trees_spec(Seq::<TreeV>::empty()),
            orig[0],
        ));
        assert(trees_view(v@).take(1) =~= Seq::<TreeV>::empty().push(orig[0]));
        assert(trees_view(v@).skip(1) =~= orig.skip(1));
    }
    while i < v.len()
        invariant
            1 <= i <= v@.len(),
            v@.len() == old(v)@.len(),
            orig == trees_view(old(v)@),
            trees_view(v@).take(i as int) == sort_trees_spec(orig.take(i as int)),
            trees_view(v@).skip(i as int) == orig.skip(i as int),
            sib_sorted(trees_view(v@).take(i as int)),
        decreases v@.len() - i,
    {
        broadcast use lemma_trees_view_is_map;

        let ghost dvpre = trees_view(v@);
        let ghost x = dvpre[i as int];
        let mut j: usize = i;
        while j > 0
            invariant
                j <= i < v@.len(),
                dvpre == trees_view(v@),
                x == dvpre[i as int],
                forall|k: int|
                    j <= k < i ==> sib_cmp(#[trigger] dvpre[k], x) == SegOrdering::Greater
                        && sib_cmp(x, dvpre[k]) == SegOrdering::Less,
            ensures
                j <= i,
                forall|k: int|
                    j <= k < i ==> sib_cmp(#[trigger] dvpre[k], x) == SegOrdering::Greater
                        && sib_cmp(x, dvpre[k]) == SegOrdering::Less,
                j > 0 ==> sib_cmp(dvpre[j - 1], x) != SegOrdering::Greater,
            decreases j,
        {
            broadcast use lemma_trees_view_is_map;

            let c = cmp_trees(&v[j - 1], &v[i], coll);
            proof {
                assert(tree_view(v@[j - 1]) == dvpre[j - 1]);
                assert(tree_view(v@[i as int]) == dvpre[i as int]);
            }
            if c == SegOrdering::Greater {
                j -= 1;
            } else {
                break ;
            }
        }
        let ghost prevvec: Seq<FileView> = v@;
        let row = v.remove(i);
        let ghost midvec: Seq<FileView> = v@;
        proof {
            lemma_trees_view_remove(prevvec, i as int);
            assert(tree_view(row) == x);
        }
        v.insert(j, row);
        proof {
            lemma_trees_view_insert(midvec, j as int, row);
            assert(trees_view(v@) == dvpre.remove(i as int).insert(j as int, x));
            lemma_tree_sort_step(dvpre, trees_view(v@), orig, i as int, j as int);
        }
        i += 1;
    }
    proof {
        assert(trees_view(v@).take(v@.len() as int) =~= trees_view(v@));
        assert(orig.take(orig.len() as int) =~= orig);
    }
}

/// The zero weight over nodes.
spec fn tzero_f() -> spec_fn(TreeV) -> int {
    |t: TreeV| 0
}

/// Whether the row sits exactly one segment below the path.
fn is_child_row(r: &FileRow, p: &Vec<String>) -> (b: bool)
    ensures
        b == is_child_of(r@, dv(p@)),
{
    if r.path.len() == 0 || r.path.len() - 1 != p.len() {
        return false;
    }
    let mut m: usize = 0;
    while m < p.len()
        invariant
            m <= p@.len(),
            r.path@.len() == p@.len() + 1,
            forall|k: int| 0 <= k < m ==> r@.path[k] == dv(p@)[k],
        decreases p@.len() - m,
    {
        if !(r.path[m] == p[m]) {
            proof {
                assert(r@.path[m as int] != dv(p@)[m as int]);
                assert(r@.path.take(dv(p@).len() as int)[m as int] == r@.path[m as int]);
            }
            return false;
        }
        m += 1;
    }
    proof {
        assert(r@.path.take(dv(p@).len() as int) =~= dv(p@));
    }
    true
}

impl FileView {
    /// Grows the subtree rooted at `target` from the row set.  Directories
    /// gather the rows one segment below them; children come out in the
    /// sibling order; sizes roll up bottom-up.
    pub fn from_file_rows_inner(
        target: &FileRow,
        file_rows: &Vec<FileRow>,
        collator: &Collation,
    ) -> (r: FileView)
        requires
            rows_closed(dv(file_rows@)),
            dirs_unique(dv(file_rows@)),
            sizes_nonneg(dv(file_rows@)),
            own_size(target@) >= 0,
            target@.path.len() <= max_plen(dv(file_rows@)) + 1,
            own_size(target@) + sum_below(dv(file_rows@), target@.path) <= u64::MAX,
        ensures
            tree_view(r) == build_tree(target@, dv(file_rows@)),
            all_sib_sorted(tree_view(r)),
        decreases max_plen(dv(file_rows@)) + 1 - target@.path.len(),
    {
        broadcast use lemma_trees_view_is_map;
        broadcast use vstd::seq_lib::group_to_multiset_ensures;

        let ghost rv = dv(file_rows@);
        let ghost tv = target@;
        let ghost p = tv.path;
        let mut children: Vec<FileView> = Vec::new();
        if target.dir {
            proof {
                assert(build_children(rv.take(0), rv, p) =~= Seq::<TreeV>::empty());
                assert(trees_view(children@) =~= Seq::<TreeV>::empty());
            }
            let mut i: usize = 0;
            while i < file_rows.len()
                invariant
                    i <= file_rows@.len(),
                    rv == dv(file_rows@),
                    tv == target@,
                    p == tv.path,
                    target.dir,
                    rows_closed(rv),
                    dirs_unique(rv),
                    sizes_nonneg(rv),
                    own_size(tv) >= 0,
                    tv.path.len() <= max_plen(rv) + 1,
                    own_size(tv) + sum_below(rv, p) <= u64::MAX,
                    trees_view(children@) == build_children(rv.take(i as int), rv, p),
                    forall|m: int|
                        0 <= m < trees_view(children@).len() ==> all_sib_sorted(
                            #[trigger] trees_view(children@)[m],
                        ),
                decreases file_rows@.len() - i,
            {
                broadcast use lemma_trees_view_is_map;

                let isch = is_child_row(&file_rows[i], &target.path);
                proof {
                    assert(file_rows@[i as int]@ == rv[i as int]);
                    assert(dv(target.path@) == p);
                }
                let ghost prevc = children@;
                if isch {
                    proof {
                        lemma_max_plen_bound(rv, i as int);
                        lemma_sum_below_child(rv, p, i as int);
                        lemma_sum_below_nonneg(rv, rv[i as int].path);
                    }
                    let child = FileView::from_file_rows_inner(&file_rows[i], file_rows, collator);
                    children.push(child);
                    proof {
                        lemma_trees_view_push(prevc, child);
                        lemma_build_children_snoc(rv.take(i as int), rv[i as int], rv, p);
                        assert(rv.take(i + 1) =~= rv.take(i as int).push(rv[i as int]));
                        assert(tree_view(child) == build_tree(rv[i as int], rv));
                        assert forall|m: int|
                            0 <= m < trees_view(children@).len() implies all_sib_sorted(
                            #[trigger] trees_view(children@)[m],
                        ) by {
                            if m < trees_view(prevc).len() {
                                assert(trees_view(children@)[m] == trees_view(prevc)[m]);
                            } else {
                                assert(trees_view(children@)[m] == tree_view(child));
                            }
                        }
                    }
                } else {
                    proof {
                        lemma_build_children_snoc(rv.take(i as int), rv[i as int], rv, p);
                        assert(rv.take(i + 1) =~= rv.take(i as int).push(rv[i as int]));
                        assert(!is_child_of(rv[i as int], p));
                    }
                }
                i += 1;
            }
            proof {
                assert(rv.take(rv.len() as int) =~= rv);
            }
            let ghost prekids = trees_view(children@);
            sort_trees(&mut children, collator);
            proof {
                lemma_sort_trees_multiset(prekids);
                assert forall|m2: int|
                    0 <= m2 < trees_view(children@).len() implies all_sib_sorted(
                    #[trigger] trees_view(children@)[m2],
                ) by {
                    let kv = trees_view(children@);
                    assert(kv.contains(kv[m2]));
                    assert(kv.to_multiset().count(kv[m2]) > 0);
                    assert(prekids.to_multiset().count(kv[m2]) > 0);
                    assert(prekids.contains(kv[m2]));
                    let m3 = choose|m3: int| 0 <= m3 < prekids.len() && prekids[m3] == kv[m2];
                    assert(all_sib_sorted(prekids[m3]));
                }
            }
        }
        let own: u64 = match target.size {
            Some(s) => s as u64,
            None => 0,
        };
        let ghost kidsv = trees_view(children@);
        proof {
            lemma_build_tree_size(tv, rv);
            lemma_sum_below_nonneg(rv, p);
            if target.dir {
                assert(kidsv == build_tree(tv, rv).children);
            } else {
                assert(children@ =~= Seq::<FileView>::empty());
                assert(kidsv =~= Seq::<TreeV>::empty());
                assert(build_tree(tv, rv).children =~= Seq::<TreeV>::empty());
            }
            assert(own as int == own_size(tv));
            assert(own as int + sum_sizes(kidsv) == build_tree(tv, rv).size);
            assert(own as int + sum_sizes(kidsv) <= u64::MAX);
            assert forall|m2: int| 0 <= m2 < kidsv.len() implies (#[trigger] kidsv[m2]).size
                >= 0 by {
                if target.dir {
                    let kids0 = build_children(rv, rv, p);
                    lemma_sort_trees_multiset(kids0);
                    assert(kidsv.contains(kidsv[m2]));
                    assert(kidsv.to_multiset().count(kidsv[m2]) > 0);
                    assert(kids0.to_multiset().count(kidsv[m2]) > 0);
                    assert(kids0.contains(kidsv[m2]));
                    let j = choose|j: int| 0 <= j < kids0.len() && kids0[j] == kidsv[m2];
                    lemma_build_children_elem(rv, rv, p, j);
                    let ci = choose|ci: int|
                        0 <= ci < rv.len() && is_child_of(#[trigger] rv[ci], p) && rv[
                            ci
                        ].path.len() <= max_plen(rv) && kids0[j] == build_tree(rv[ci], rv);
                    lemma_build_tree_size(rv[ci], rv);
                    lemma_sum_below_nonneg(rv, rv[ci].path);
                }
            }
        }
        let mut total: u64 = own;
        let mut m: usize = 0;
        proof {
            assert(kidsv.take(0) =~= Seq::<TreeV>::empty());
        }
        while m < children.len()
            invariant
                m <= children@.len(),
                kidsv == trees_view(children@),
                total as int == own as int + sum_sizes(kidsv.take(m as int)),
                own as int + sum_sizes(kidsv) <= u64::MAX,
                forall|m2: int| 0 <= m2 < kidsv.len() ==> (#[trigger] kidsv[m2]).size >= 0,
                total as int >= 0,
            decreases children@.len() - m,
        {
            broadcast use lemma_trees_view_is_map;

            proof {
                assert(kidsv.take(m + 1).drop_last() =~= kidsv.take(m as int));
                assert(kidsv.take(m + 1).last() == kidsv[m as int]);
                crate::seqs::lemma_sum_by_concat(kidsv.take(m + 1), kidsv.skip(m + 1), tree_size_f());
                assert(kidsv.take(m + 1) + kidsv.skip(m + 1) =~= kidsv);
                assert forall|k: int|
                    0 <= k < kidsv.skip(m + 1).len() implies tzero_f()(
                    #[trigger] kidsv.skip(m + 1)[k],
                ) <= tree_size_f()(kidsv.skip(m + 1)[k]) by {
                    assert(kidsv.skip(m + 1)[k] == kidsv[m + 1 + k]);
                }
                crate::seqs::lemma_sum_by_zero(kidsv.skip(m + 1), tzero_f());
                crate::seqs::lemma_sum_by_le(kidsv.skip(m + 1), tzero_f(), tree_size_f());
                assert(tree_view(children@[m as int]).size == kidsv[m as int].size);
            }
            total = total + children[m].size;
            m += 1;
        }
        proof {
            assert(kidsv.take(children@.len() as int) =~= kidsv);
        }
        let name: String = match target.leaf() {
            Some(s) => s.clone(),
            None => String::new(),
        };
        let r = FileView {
            depth: target.path.len(),
            name,
            children,
            size: total,
            so: target.so,
        };
        proof {
            assert(tree_view(r).children == kidsv);
            assert(tree_view(r) == build_tree(tv, rv));
            assert(sib_sorted(kidsv));
            assert(all_sib_sorted(tree_view(r)));
        }
        r
    }

    /// Grows the whole tree: the root is the synthetic empty path, its
    /// children the rows one segment deep, and so on down.
    pub fn from_file_rows(file_rows: &Vec<FileRow>) -> (r: Option<FileView>)
        requires
            rows_closed(dv(file_rows@)),
            dirs_unique(dv(file_rows@)),
            sizes_nonneg(dv(file_rows@)),
            sum_below(dv(file_rows@), Seq::empty()) <= u64::MAX,
        ensures
            r matches Some(t) && tree_view(t) == build_tree(root_row(), dv(file_rows@))
                && all_sib_sorted(tree_view(t)),
    {
        let this_file_row = FileRow { path: Vec::new(), dir: true, size: None, so: None };
        proof {
            assert(this_file_row@.path =~= Seq::<Seq<char>>::empty());
            assert(this_file_row@ == root_row());
            lemma_max_plen_nonneg(dv(file_rows@));
        }
        let collator = new_collator();
        Some(FileView::from_file_rows_inner(&this_file_row, file_rows, &collator))
    }
}

/// The synthetic root row: the empty path.
pub open spec fn root_row() -> RowV {
    RowV { path: Seq::empty(), dir: true, size: None, so: None }
}

/// The raw-length summing function over records, as one shared term.
pub open spec fn raw_len_f() -> spec_fn(crate::api::FileV) -> int {
    |f: crate::api::FileV| f.length as int
}

/// The total length of the raw records.
pub open spec fn sum_raw_lengths(files: Seq<crate::api::FileV>) -> int {
    crate::seqs::sum_by(files, raw_len_f())
}

/// Normalizing keeps every record's length, so the totals agree.
proof fn lemma_upvert_keeps_lengths(files: Seq<crate::api::FileV>, name: Seq<char>)
    ensures
        crate::filerow::sum_lengths(crate::api::upvert_spec(files, name)) == sum_raw_lengths(
            files,
        ),
    decreases files.len(),
{
    if files.len() == 0 {
    } else {
        lemma_upvert_keeps_lengths(files.drop_last(), name);
        assert(crate::api::upvert_spec(files, name).drop_last() =~= crate::api::upvert_spec(
            files.drop_last(),
            name,
        ));
        assert(crate::api::upvert_spec(files, name).last().length == files.last().length);
    }
}

/// The whole pipeline's rollup: on the flat listing grown from the
/// normalized records, the tree's root weighs exactly the total of the
/// raw records' lengths.  The hypotheses are what the flat listing
/// guarantees of its rows.
pub proof fn lemma_pipeline_root_size(
    files: Seq<crate::api::FileV>,
    name: Seq<char>,
    rows: Seq<RowV>,
)
    requires
        rows_closed(rows),
        dirs_unique(rows),
        forall|row: RowV|
            #[trigger] rows.contains(row) <==> (crate::filerow::is_file_row_of(
                crate::api::upvert_spec(files, name),
                row,
            ) || (crate::filerow::is_dir_row(row) && crate::filerow::is_proper_prefix_of(
                row.path,
                crate::api::upvert_spec(files, name),
            ))),
        crate::filerow::sum_own(rows) == crate::filerow::sum_lengths(
            crate::api::upvert_spec(files, name),
        ),
    ensures
        build_tree(root_row(), rows).size == sum_raw_lengths(files),
{
    let up = crate::api::upvert_spec(files, name);
    assert forall|i: int| 0 <= i < rows.len() implies (#[trigger] rows[i]).path.len() >= 1 by {
        let row = rows[i];
        assert(rows.contains(row));
        if crate::filerow::is_file_row_of(up, row) {
            let j = choose|j: int|
                0 <= j < up.len() && row == #[trigger] crate::filerow::file_row_at(up, j);
            assert(row.path == up[j].path);
            assert(up[j] == crate::api::UpFileV {
                path: crate::api::upvert_path(files[j].path, name),
                length: files[j].length,
            });
        } else {
            let (j, k) = choose|j: int, k: int|
                0 <= j < up.len() && 1 <= k < up[j].path.len() && row.path == #[trigger] up[
                    j
                ].path.take(k);
        }
    }
    lemma_root_size(up, rows);
    lemma_upvert_keeps_lengths(files, name);
}

/// The root's size is the total of the records' lengths: what the flat
/// listing guarantees of its rows makes the rollup exact at the root.
pub proof fn lemma_root_size(files: Seq<UpFileV>, rows: Seq<RowV>)
    requires
        rows_closed(rows),
        dirs_unique(rows),
        forall|i: int| 0 <= i < rows.len() ==> (#[trigger] rows[i]).path.len() >= 1,
        crate::filerow::sum_own(rows) == crate::filerow::sum_lengths(files),
    ensures
        build_tree(root_row(), rows).size == crate::filerow::sum_lengths(files),
{
    lemma_max_plen_nonneg(rows);
    lemma_build_tree_size(root_row(), rows);
    assert forall|i: int|
        0 <= i < rows.len() implies below_f(Seq::empty())(#[trigger] rows[i])
        == crate::filerow::row_own_f()(rows[i]) by {
        assert(rows[i].path.take(0) =~= Seq::<Seq<char>>::empty());
        assert(strictly_below(rows[i], Seq::empty()));
    }
    crate::seqs::lemma_sum_by_ext(rows, below_f(Seq::empty()), crate::filerow::row_own_f());
}

} // verus!
