//! Flat rows: one row per file record, one deduplicated row per implied
//! ancestor directory, and the total order that lists them.
//!
//! A [`FileRow`] either stands for a real file (carrying its length and its
//! position in the input) or for a directory implied by some file's path.
//! [`info_files_to_file_rows`] synthesizes the rows from normalized records
//! and sorts them by the collated path order with a deterministic
//! tie-break: on equal paths a directory row precedes file rows, and file
//! rows follow their original position.
use crate::api::clone_path;
use crate::api::path_prefix;
use crate::api::UpFileV;
use crate::api::UpvertedFile;
use crate::collate::flip;
use crate::collate::new_collator;
use crate::collate::seg_cmp;
use crate::collate::Collation;
use crate::collate::SegOrdering;
use crate::seqs::dv;
use crate::seqs::dv_snoc_take_to;
use vstd::prelude::*;

verus! {

broadcast use crate::seqs::group_dv;

/// A flat, sortable row: a real file or an implied ancestor directory.
#[derive(Eq, Hash, Debug, Ord, PartialOrd, Clone)]
pub struct FileRow {
    pub path: Vec<String>,
    pub dir: bool,
    pub size: Option<i64>,
    pub so: Option<usize>,
}

/// The spec-level shape of a row.
pub ghost struct RowV {
    pub path: Seq<Seq<char>>,
    pub dir: bool,
    pub size: Option<i64>,
    pub so: Option<usize>,
}

impl View for FileRow {
    type V = RowV;

    open spec fn view(&self) -> RowV {
        RowV { path: dv(self.path@), dir: self.dir, size: self.size, so: self.so }
    }
}

impl DeepView for FileRow {
    type V = RowV;

    open spec fn deep_view(&self) -> RowV {
        self.view()
    }
}

impl PartialEq for FileRow {
    /// Two rows are equal when their paths are: the reading used by the
    /// directory dedup step.
    fn eq(&self, other: &FileRow) -> (r: bool) {
        path_eq(&self.path, &other.path)
    }
}

impl vstd::std_specs::cmp::PartialEqSpecImpl for FileRow {
    open spec fn obeys_eq_spec() -> bool {
        true
    }

    open spec fn eq_spec(&self, other: &FileRow) -> bool {
        dv(self.path@) == dv(other.path@)
    }
}

impl FileRow {
    /// The last path segment, if any.
    pub fn leaf(&self) -> (r: Option<&String>)
        ensures
            match r {
                Some(s) => self@.path.len() > 0 && s@ == self@.path.last(),
                None => self@.path.len() == 0,
            },
    {
        if self.path.len() == 0 {
            None
        } else {
            Some(&self.path[self.path.len() - 1])
        }
    }

    /// The path segments, in order.
    pub fn iter_path(&self) -> (r: &Vec<String>)
        ensures
            dv(r@) == self@.path,
    {
        &self.path
    }

    /// Orders two rows by their paths alone, under the collated segment
    /// order: segment by segment, the shorter path first on a tie.
    pub fn compare_with_collator(&self, other: &Self, collator: &Collation) -> (r: SegOrdering)
        ensures
            r == path_cmp(self@.path, other@.path),
            path_cmp(other@.path, self@.path) == flip(r),
    {
        cmp_paths(&self.path, &other.path, collator)
    }
}

/// Whether two paths hold the same segments.
pub(crate) fn path_eq(a: &Vec<String>, b: &Vec<String>) -> (r: bool)
    ensures
        r == (dv(a@) == dv(b@)),
{
    if a.len() != b.len() {
        proof {
            assert(dv(a@).len() != dv(b@).len());
        }
        return false;
    }
    let mut i: usize = 0;
    while i < a.len()
        invariant
            a.len() == b.len(),
            i <= a.len(),
            forall|k: int| 0 <= k < i ==> dv(a@)[k] == dv(b@)[k],
        decreases a.len() - i,
    {
        if !(a[i] == b[i]) {
            proof {
                assert(dv(a@)[i as int] != dv(b@)[i as int]);
            }
            return false;
        }
        i += 1;
    }
    proof {
        assert(dv(a@) =~= dv(b@));
    }
    true
}

/// The collated order over whole paths: segment by segment, and on a full
/// prefix match the shorter path first.
pub open spec fn path_cmp(a: Seq<Seq<char>>, b: Seq<Seq<char>>) -> SegOrdering
    decreases a.len(),
{
    if a.len() == 0 && b.len() == 0 {
        SegOrdering::Equal
    } else if a.len() == 0 {
        SegOrdering::Less
    } else if b.len() == 0 {
        SegOrdering::Greater
    } else {
        match seg_cmp(a[0], b[0]) {
            SegOrdering::Equal => path_cmp(a.skip(1), b.skip(1)),
            o => o,
        }
    }
}

/// Comparing two paths that agree (both ways) on their first `i` segments
/// is comparing what remains.
proof fn lemma_path_cmp_skip(a: Seq<Seq<char>>, b: Seq<Seq<char>>, i: int)
    requires
        0 <= i <= a.len(),
        i <= b.len(),
        forall|k: int| 0 <= k < i ==> seg_cmp(a[k], b[k]) == SegOrdering::Equal,
    ensures
        path_cmp(a, b) == path_cmp(a.skip(i), b.skip(i)),
    decreases i,
{
    if i == 0 {
        assert(a.skip(0) =~= a);
        assert(b.skip(0) =~= b);
    } else {
        assert(seg_cmp(a[0], b[0]) == SegOrdering::Equal);
        lemma_path_cmp_skip(a.skip(1), b.skip(1), i - 1);
        assert(a.skip(1).skip(i - 1) =~= a.skip(i));
        assert(b.skip(1).skip(i - 1) =~= b.skip(i));
    }
}

/// Compares two paths with the collator, returning the collated path order.
fn cmp_paths(a: &Vec<String>, b: &Vec<String>, coll: &Collation) -> (r: SegOrdering)
    ensures
        r == path_cmp(dv(a@), dv(b@)),
        path_cmp(dv(b@), dv(a@)) == flip(r),
{
    let ghost ga = dv(a@);
    let ghost gb = dv(b@);
    let mut i: usize = 0;
    loop
        invariant
            i <= a.len(),
            i <= b.len(),
            ga == dv(a@),
            gb == dv(b@),
            forall|k: int|
                0 <= k < i ==> seg_cmp(ga[k], gb[k]) == SegOrdering::Equal && seg_cmp(
                    gb[k],
                    ga[k],
                ) == SegOrdering::Equal,
        decreases a.len() - i,
    {
        proof {
            lemma_path_cmp_skip(ga, gb, i as int);
            lemma_path_cmp_skip(gb, ga, i as int);
        }
        if i >= a.len() || i >= b.len() {
            if a.len() == b.len() {
                proof {
                    assert(ga.skip(i as int) =~= Seq::<Seq<char>>::empty());
                    assert(gb.skip(i as int) =~= Seq::<Seq<char>>::empty());
                }
                return SegOrdering::Equal;
            } else if a.len() < b.len() {
                proof {
                    assert(ga.skip(i as int) =~= Seq::<Seq<char>>::empty());
                    assert(gb.skip(i as int).len() > 0);
                }
                return SegOrdering::Less;
            } else {
                proof {
                    assert(gb.skip(i as int) =~= Seq::<Seq<char>>::empty());
                    assert(ga.skip(i as int).len() > 0);
                }
                return SegOrdering::Greater;
            }
        }
        let c = coll.compare(a[i].as_str(), b[i].as_str());
        proof {
            assert(a@[i as int]@ == ga[i as int]);
            assert(b@[i as int]@ == gb[i as int]);
        }
        if c == SegOrdering::Equal {
            i += 1;
        } else {
            proof {
                assert(ga.skip(i as int)[0] == ga[i as int]);
                assert(gb.skip(i as int)[0] == gb[i as int]);
            }
            return c;
        }
    }
}

/// Orders two original positions: absent before present, then ascending.
pub open spec fn so_cmp(a: Option<usize>, b: Option<usize>) -> SegOrdering {
    match (a, b) {
        (None, None) => SegOrdering::Equal,
        (None, Some(_)) => SegOrdering::Less,
        (Some(_), None) => SegOrdering::Greater,
        (Some(x), Some(y)) => if x < y {
            SegOrdering::Less
        } else if x == y {
            SegOrdering::Equal
        } else {
            SegOrdering::Greater
        },
    }
}

/// The full order of the flat listing: the collated path order first; on
/// equal paths a directory row precedes file rows, and rows with the same
/// path and kind follow their original position.
pub open spec fn row_cmp(a: RowV, b: RowV) -> SegOrdering {
    match path_cmp(a.path, b.path) {
        SegOrdering::Equal => if a.dir && !b.dir {
            SegOrdering::Less
        } else if !a.dir && b.dir {
            SegOrdering::Greater
        } else {
            so_cmp(a.so, b.so)
        },
        o => o,
    }
}

/// Compares two rows under the full order of the flat listing.
fn cmp_rows(a: &FileRow, b: &FileRow, coll: &Collation) -> (r: SegOrdering)
    ensures
        r == row_cmp(a@, b@),
        row_cmp(b@, a@) == flip(r),
{
    let pc = cmp_paths(&a.path, &b.path, coll);
    if pc != SegOrdering::Equal {
        return pc;
    }
    if a.dir && !b.dir {
        SegOrdering::Less
    } else if !a.dir && b.dir {
        SegOrdering::Greater
    } else {
        match (a.so, b.so) {
            (None, None) => SegOrdering::Equal,
            (None, Some(_)) => SegOrdering::Less,
            (Some(_), None) => SegOrdering::Greater,
            (Some(x), Some(y)) => {
                if x < y {
                    SegOrdering::Less
                } else if x == y {
                    SegOrdering::Equal
                } else {
                    SegOrdering::Greater
                }
            },
        }
    }
}

/// The file row of the record at position `i`.
pub open spec fn file_row_at(files: Seq<UpFileV>, i: int) -> RowV {
    RowV { path: files[i].path, dir: false, size: Some(files[i].length), so: Some(i as usize) }
}

/// One file row per record, in input order.
pub open spec fn file_rows_spec(files: Seq<UpFileV>) -> Seq<RowV> {
    Seq::new(files.len(), |i: int| file_row_at(files, i))
}

/// The directory row of the given path.
pub open spec fn dir_row(path: Seq<Seq<char>>) -> RowV {
    RowV { path, dir: true, size: None, so: None }
}

/// Whether a row is a directory row: no size, no original position.
pub open spec fn is_dir_row(r: RowV) -> bool {
    r.dir && r.size is None && r.so is None
}

/// Whether `p` is a proper, non-empty prefix of some record's path.
pub open spec fn is_proper_prefix_of(p: Seq<Seq<char>>, files: Seq<UpFileV>) -> bool {
    exists|i: int, k: int|
        0 <= i < files.len() && 1 <= k < files[i].path.len() && p == #[trigger] files[
            i
        ].path.take(k)
}

/// Whether some row of `rows` is the directory row of path `p`.
pub open spec fn contains_dir_row(rows: Seq<RowV>, p: Seq<Seq<char>>) -> bool {
    exists|j: int| 0 <= j < rows.len() && rows[j] == dir_row(p)
}

/// Emits one file row per record, carrying its length and position.
pub fn file_rows(files: &[UpvertedFile]) -> (r: Vec<FileRow>)
    ensures
        dv(r@) == file_rows_spec(dv(files@)),
{
    let ghost goal = file_rows_spec(dv(files@));
    let mut r: Vec<FileRow> = Vec::new();
    proof {
        assert(dv(r@) =~= goal.take(0));
    }
    let mut i: usize = 0;
    while i < files.len()
        invariant
            i <= files@.len(),
            goal == file_rows_spec(dv(files@)),
            dv(r@) == goal.take(i as int),
        decreases files@.len() - i,
    {
        let row = FileRow {
            path: clone_path(&files[i].path),
            dir: false,
            size: Some(files[i].length),
            so: Some(i),
        };
        let ghost prevv: Seq<FileRow> = r@;
        proof {
            assert(dv(files@)[i as int] == files@[i as int].deep_view());
            assert(row.deep_view() == goal[i as int]);
        }
        r.push(row);
        proof {
            dv_snoc_take_to(prevv, row, goal, i as int);
        }
        i += 1;
    }
    proof {
        assert(goal.take(goal.len() as int) =~= goal);
    }
    r
}

/// The directory rows implied by one record: one per proper prefix of its
/// path, shortest first.
pub open spec fn prefix_rows_spec(p: Seq<Seq<char>>) -> Seq<RowV> {
    if p.len() == 0 {
        Seq::empty()
    } else {
        Seq::new((p.len() - 1) as nat, |k: int| dir_row(p.take(k + 1)))
    }
}

/// Emits the candidate directory rows of one record, before dedup.
pub fn file_dir_file_rows(file: &UpvertedFile) -> (r: Vec<FileRow>)
    ensures
        dv(r@) == prefix_rows_spec(file.deep_view().path),
{
    let ghost p = file.deep_view().path;
    let ghost goal = prefix_rows_spec(p);
    let mut r: Vec<FileRow> = Vec::new();
    proof {
        assert(dv(r@) =~= goal.take(0));
    }
    let n = file.path.len();
    if n == 0 {
        proof {
            assert(dv(r@) =~= goal);
        }
        return r;
    }
    let mut k: usize = 1;
    while k < n
        invariant
            1 <= k <= n,
            n == file.path@.len(),
            p == file.deep_view().path,
            goal == prefix_rows_spec(p),
            dv(r@) == goal.take(k - 1),
        decreases n - k,
    {
        let row = FileRow { path: path_prefix(&file.path, k), dir: true, size: None, so: None };
        let ghost prevv: Seq<FileRow> = r@;
        proof {
            assert(goal[k - 1] == dir_row(p.take(k as int)));
            assert(row.deep_view() == goal[k - 1]);
        }
        r.push(row);
        proof {
            dv_snoc_take_to(prevv, row, goal, k - 1);
        }
        k += 1;
    }
    proof {
        assert(goal.take(goal.len() as int) =~= goal);
    }
    r
}

/// Whether some row of `rows` carries exactly the path `p`.
fn contains_path(rows: &Vec<FileRow>, p: &Vec<String>) -> (r: bool)
    ensures
        r == exists|j: int| 0 <= j < dv(rows@).len() && (#[trigger] dv(rows@)[j]).path == dv(p@),
{
    let mut m: usize = 0;
    while m < rows.len()
        invariant
            m <= rows@.len(),
            forall|j: int| 0 <= j < m ==> (#[trigger] dv(rows@)[j]).path != dv(p@),
        decreases rows@.len() - m,
    {
        if path_eq(&rows[m].path, p) {
            proof {
                assert((dv(rows@)[m as int]).path == dv(p@));
            }
            return true;
        }
        m += 1;
    }
    false
}

/// All candidate directory rows persist when one more row is appended.
proof fn lemma_contains_dir_row_push(rows: Seq<RowV>, x: RowV, p: Seq<Seq<char>>)
    requires
        contains_dir_row(rows, p),
    ensures
        contains_dir_row(rows.push(x), p),
{
    let j = choose|j: int| 0 <= j < rows.len() && rows[j] == dir_row(p);
    assert(rows.push(x)[j] == dir_row(p));
}

/// Emits one directory row per distinct proper prefix implied by any
/// record: deduplicated by path, in order of first occurrence.
pub fn dir_file_rows(files: &[UpvertedFile]) -> (r: Vec<FileRow>)
    ensures
        forall|j: int| 0 <= j < dv(r@).len() ==> is_dir_row(#[trigger] dv(r@)[j]),
        forall|j: int, m: int|
            0 <= j < m < dv(r@).len() ==> (#[trigger] dv(r@)[j]).path != (#[trigger] dv(
                r@,
            )[m]).path,
        forall|j: int|
            0 <= j < dv(r@).len() ==> is_proper_prefix_of((#[trigger] dv(r@)[j]).path, dv(files@)),
        forall|p: Seq<Seq<char>>|
            is_proper_prefix_of(p, dv(files@)) ==> contains_dir_row(dv(r@), p),
{
    let ghost gf = dv(files@);
    let mut rows: Vec<FileRow> = Vec::new();
    let mut fi: usize = 0;
    while fi < files.len()
        invariant
            fi <= gf.len(),
            gf == dv(files@),
            forall|j: int| 0 <= j < dv(rows@).len() ==> is_dir_row(#[trigger] dv(rows@)[j]),
            forall|j: int, m: int|
                0 <= j < m < dv(rows@).len() ==> (#[trigger] dv(rows@)[j]).path != (#[trigger] dv(
                    rows@,
                )[m]).path,
            forall|j: int|
                0 <= j < dv(rows@).len() ==> is_proper_prefix_of(
                    (#[trigger] dv(rows@)[j]).path,
                    gf,
                ),
            forall|i2: int, k2: int|
                0 <= i2 < fi && 1 <= k2 < gf[i2].path.len() ==> contains_dir_row(
                    dv(rows@),
                    #[trigger] gf[i2].path.take(k2),
                ),
        decreases files@.len() - fi,
    {
        let f = &files[fi];
        let n = f.path.len();
        proof {
            assert(dv(f.path@) == gf[fi as int].path);
        }
        let mut k: usize = 1;
        while k < n
            invariant
                fi < gf.len(),
                n == f.path@.len(),
                dv(f.path@) == gf[fi as int].path,
                1 <= k,
                n > 0 ==> k <= n,
                forall|j: int| 0 <= j < dv(rows@).len() ==> is_dir_row(#[trigger] dv(rows@)[j]),
                forall|j: int, m: int|
                    0 <= j < m < dv(rows@).len() ==> (#[trigger] dv(rows@)[j]).path != (
                    #[trigger] dv(rows@)[m]).path,
                forall|j: int|
                    0 <= j < dv(rows@).len() ==> is_proper_prefix_of(
                        (#[trigger] dv(rows@)[j]).path,
                        gf,
                    ),
                forall|i2: int, k2: int|
                    0 <= i2 < fi && 1 <= k2 < gf[i2].path.len() ==> contains_dir_row(
                        dv(rows@),
                        #[trigger] gf[i2].path.take(k2),
                    ),
                forall|k2: int|
                    1 <= k2 < k && k2 < gf[fi as int].path.len() ==> contains_dir_row(
                        dv(rows@),
                        #[trigger] gf[fi as int].path.take(k2),
                    ),
            decreases n - k,
        {
            let pref = path_prefix(&f.path, k);
            proof {
                assert(dv(pref@) == gf[fi as int].path.take(k as int));
            }
            if !contains_path(&rows, &pref) {
                let row = FileRow { path: pref, dir: true, size: None, so: None };
                let ghost prevv: Seq<FileRow> = rows@;
                let ghost prevd = dv(rows@);
                let ghost rowv = row.deep_view();
                rows.push(row);
                proof {
                    crate::seqs::dv_push(prevv, row);
                    assert(dv(rows@) == prevd.push(rowv));
                    assert(rowv == dir_row(gf[fi as int].path.take(k as int)));
                    assert forall|p2: Seq<Seq<char>>|
                        contains_dir_row(prevd, p2) implies contains_dir_row(
                        dv(rows@),
                        p2,
                    ) by {
                        lemma_contains_dir_row_push(prevd, rowv, p2);
                    }
                    assert(dv(rows@)[prevd.len() as int] == rowv);
                    assert(contains_dir_row(dv(rows@), gf[fi as int].path.take(k as int)));
                    assert(is_proper_prefix_of(rowv.path, gf));
                }
            } else {
                proof {
                    let j = choose|j: int|
                        0 <= j < dv(rows@).len() && (#[trigger] dv(rows@)[j]).path == dv(pref@);
                    assert(dv(rows@)[j] == dir_row(gf[fi as int].path.take(k as int)));
                }
            }
            k += 1;
        }
        proof {
            assert forall|k2: int|
                1 <= k2 < gf[fi as int].path.len() implies contains_dir_row(
                dv(rows@),
                #[trigger] gf[fi as int].path.take(k2),
            ) by {}
        }
        fi += 1;
    }
    proof {
        assert forall|p: Seq<Seq<char>>|
            is_proper_prefix_of(p, gf) implies contains_dir_row(dv(rows@), p) by {
            let (i2, k2) = choose|i2: int, k2: int|
                0 <= i2 < gf.len() && 1 <= k2 < gf[i2].path.len() && p == #[trigger] gf[
                    i2
                ].path.take(k2);
            assert(contains_dir_row(dv(rows@), gf[i2].path.take(k2)));
        }
    }
    rows
}

/// Adjacent rows never step down: the flat listing's sortedness.
pub open spec fn sorted_rows(s: Seq<RowV>) -> bool {
    forall|i: int|
        0 <= i < s.len() - 1 ==> (#[trigger] row_cmp(s[i], s[i + 1])) != SegOrdering::Greater
}

/// Inserting one row into a sequence, scanning from the right past every
/// strictly greater element.
pub open spec fn insert_row(s: Seq<RowV>, x: RowV) -> Seq<RowV>
    decreases s.len(),
{
    if s.len() > 0 && row_cmp(s.last(), x) == SegOrdering::Greater {
        insert_row(s.drop_last(), x).push(s.last())
    } else {
        s.push(x)
    }
}

/// Insertion sort over rows, element by element from the left.
pub open spec fn sort_rows_spec(s: Seq<RowV>) -> Seq<RowV>
    decreases s.len(),
{
    if s.len() == 0 {
        Seq::empty()
    } else {
        insert_row(sort_rows_spec(s.drop_last()), s.last())
    }
}

/// Where the scan stops is where the insertion lands: if everything from
/// `j` on is strictly greater than `x` and the element before `j` (if any)
/// is not, then inserting `x` splits the sequence at `j`.
proof fn lemma_insert_row_at(s: Seq<RowV>, x: RowV, j: int)
    requires
        0 <= j <= s.len(),
        forall|k: int| j <= k < s.len() ==> row_cmp(#[trigger] s[k], x) == SegOrdering::Greater,
        j > 0 ==> row_cmp(s[j - 1], x) != SegOrdering::Greater,
    ensures
        insert_row(s, x) == s.take(j) + seq![x] + s.skip(j),
    decreases s.len(),
{
    if j == s.len() {
        assert(insert_row(s, x) == s.push(x));
        assert(s.take(j) + seq![x] + s.skip(j) =~= s.push(x));
    } else {
        assert(row_cmp(s[s.len() - 1], x) == SegOrdering::Greater);
        assert(insert_row(s, x) == insert_row(s.drop_last(), x).push(s.last()));
        lemma_insert_row_at(s.drop_last(), x, j);
        assert((s.drop_last().take(j) + seq![x] + s.drop_last().skip(j)).push(s.last()) =~= s.take(
            j,
        ) + seq![x] + s.skip(j));
    }
}

/// One insertion step: moving the element at `i` back to the scan position
/// `j` extends the sorted prefix by one while the tail stays untouched.
#[verifier::rlimit(50)]
proof fn lemma_sort_step(dvpre: Seq<RowV>, newdv: Seq<RowV>, orig: Seq<RowV>, i: int, j: int)
    requires
        1 <= i < dvpre.len(),
        dvpre.len() == orig.len(),
        0 <= j <= i,
        newdv == dvpre.remove(i).insert(j, dvpre[i]),
        dvpre.take(i) == sort_rows_spec(orig.take(i)),
        dvpre.skip(i) == orig.skip(i),
        sorted_rows(dvpre.take(i)),
        forall|k: int|
            j <= k < i ==> row_cmp(#[trigger] dvpre[k], dvpre[i]) == SegOrdering::Greater
                && row_cmp(dvpre[i], dvpre[k]) == SegOrdering::Less,
        j > 0 ==> row_cmp(dvpre[j - 1], dvpre[i]) != SegOrdering::Greater,
    ensures
        newdv.take(i + 1) == sort_rows_spec(orig.take(i + 1)),
        newdv.skip(i + 1) == orig.skip(i + 1),
        sorted_rows(newdv.take(i + 1)),
{
    let x = dvpre[i];
    lemma_insert_row_at(dvpre.take(i), x, j);
    let target = dvpre.take(i).take(j) + seq![x] + dvpre.take(i).skip(j);
    assert(insert_row(dvpre.take(i), x) == target);
    assert(newdv.take(i + 1) =~= target);
    assert(orig.take(i + 1).drop_last() =~= orig.take(i));
    assert(orig.take(i + 1).last() == orig[i]);
    assert(dvpre.skip(i)[0] == orig.skip(i)[0]);
    assert(x == orig[i]);
    assert(sort_rows_spec(orig.take(i + 1)) == insert_row(sort_rows_spec(orig.take(i)), orig[i]));
    assert(newdv.take(i + 1) == sort_rows_spec(orig.take(i + 1)));
    assert(newdv.skip(i + 1) =~= dvpre.skip(i + 1));
    assert(dvpre.skip(i + 1) =~= orig.skip(i + 1)) by {
        assert forall|k: int|
            0 <= k < dvpre.len() - i - 1 implies #[trigger] dvpre.skip(i + 1)[k] == orig.skip(
            i + 1,
        )[k] by {
            assert(dvpre.skip(i)[k + 1] == orig.skip(i)[k + 1]);
        }
    }
    assert forall|m: int|
        0 <= m < i implies row_cmp(#[trigger] newdv.take(i + 1)[m], newdv.take(i + 1)[m + 1])
        != SegOrdering::Greater by {
        let s = dvpre.take(i);
        let t = newdv.take(i + 1);
        if m < j - 1 {
            assert(t[m] == s[m]);
            assert(t[m + 1] == s[m + 1]);
            assert(row_cmp(s[m], s[m + 1]) != SegOrdering::Greater);
        } else if m == j - 1 {
            assert(t[m] == s[m]);
            assert(t[m + 1] == x);
            assert(row_cmp(dvpre[j - 1], x) != SegOrdering::Greater);
        } else if m == j {
            assert(t[m] == x);
            assert(t[m + 1] == s[m]);
            assert(row_cmp(x, dvpre[m]) == SegOrdering::Less);
        } else {
            assert(t[m] == s[m - 1]);
            assert(t[m + 1] == s[m]);
            let mp = m - 1;
            assert(row_cmp(s[mp], s[mp + 1]) != SegOrdering::Greater);
            assert(s[mp + 1] == s[m]);
        }
    }
}

/// Sorts the rows in place under the full order of the flat listing, by
/// insertion; the result is exactly the spec-level insertion sort.
pub fn sort_rows(v: &mut Vec<FileRow>, coll: &Collation)
    ensures
        dv(final(v)@) == sort_rows_spec(dv(old(v)@)),
        sorted_rows(dv(final(v)@)),
{
    let ghost orig = dv(old(v)@);
    if v.len() == 0 {
        proof {
            assert(dv(v@) =~= sort_rows_spec(orig));
        }
        return ;
    }
    let mut i: usize = 1;
    proof {
        assert(orig.take(1).drop_last() =~= Seq::<RowV>::empty());
        assert(orig.take(1).last() == orig[0]);
        assert(sort_rows_spec(Seq::<RowV>::empty()) == Seq::<RowV>::empty());
        assert(insert_row(Seq::<RowV>::empty(), orig[0]) == Seq::<RowV>::empty().push(orig[0]));
        assert(sort_rows_spec(orig.take(1)) == insert_row(
            sort_rows_spec(Seq::<RowV>::empty()),
            orig[0],
        ));
        assert(dv(v@).take(1) =~= Seq::<RowV>::empty().push(orig[0]));
        assert(dv(v@).take(1) == sort_rows_spec(orig.take(1)));
        assert(dv(v@).skip(1) =~= orig.skip(1));
    }
    while i < v.len()
        invariant
            1 <= i <= v@.len(),
            v@.len() == old(v)@.len(),
            orig == dv(old(v)@),
            dv(v@).take(i as int) == sort_rows_spec(orig.take(i as int)),
            dv(v@).skip(i as int) == orig.skip(i as int),
            sorted_rows(dv(v@).take(i as int)),
        decreases v@.len() - i,
    {
        let ghost dvpre = dv(v@);
        let ghost x = dvpre[i as int];
        let mut j: usize = i;
        while j > 0
            invariant
                j <= i < v@.len(),
                dvpre == dv(v@),
                x == dvpre[i as int],
                forall|k: int|
                    j <= k < i ==> row_cmp(#[trigger] dvpre[k], x) == SegOrdering::Greater
                        && row_cmp(x, dvpre[k]) == SegOrdering::Less,
            ensures
                j <= i,
                forall|k: int|
                    j <= k < i ==> row_cmp(#[trigger] dvpre[k], x) == SegOrdering::Greater
                        && row_cmp(x, dvpre[k]) == SegOrdering::Less,
                j > 0 ==> row_cmp(dvpre[j - 1], x) != SegOrdering::Greater,
            decreases j,
        {
            let c = cmp_rows(&v[j - 1], &v[i], coll);
            if c == SegOrdering::Greater {
                j -= 1;
            } else {
                break ;
            }
        }
        let ghost prevvec: Seq<FileRow> = v@;
        let row = v.remove(i);
        let ghost midvec: Seq<FileRow> = v@;
        proof {
            crate::seqs::dv_remove(prevvec, i as int);
            assert(row.deep_view() == x);
        }
        v.insert(j, row);
        proof {
            crate::seqs::dv_insert(midvec, j as int, row);
            assert(dv(v@) == dvpre.remove(i as int).insert(j as int, x));
            lemma_sort_step(dvpre, dv(v@), orig, i as int, j as int);
        }
        i += 1;
    }
    proof {
        assert(dv(v@).take(v@.len() as int) =~= dv(v@));
        assert(orig.take(orig.len() as int) =~= orig);
    }
}

/// The byte count a row itself carries: its size if it has one, else zero.
pub open spec fn own_size(r: RowV) -> int {
    match r.size {
        Some(s) => s as int,
        None => 0,
    }
}

/// The summing function over rows, as one shared term.
pub open spec fn row_own_f() -> spec_fn(RowV) -> int {
    |r: RowV| own_size(r)
}

/// The total byte count the rows carry.
pub open spec fn sum_own(s: Seq<RowV>) -> int {
    crate::seqs::sum_by(s, row_own_f())
}

/// The length-summing function over records, as one shared term.
pub open spec fn up_len_f() -> spec_fn(UpFileV) -> int {
    |f: UpFileV| f.length as int
}

/// The total length of the records.
pub open spec fn sum_lengths(files: Seq<UpFileV>) -> int {
    crate::seqs::sum_by(files, up_len_f())
}

/// Whether `r` is the file row of one of the records.
pub open spec fn is_file_row_of(files: Seq<UpFileV>, r: RowV) -> bool {
    exists|i: int| 0 <= i < files.len() && r == #[trigger] file_row_at(files, i)
}

/// Every proper prefix of every row's path has its directory row present.
pub open spec fn rows_closed(rows: Seq<RowV>) -> bool {
    forall|j: int, k: int|
        0 <= j < rows.len() && 1 <= k < rows[j].path.len() ==> contains_dir_row(
            rows,
            #[trigger] rows[j].path.take(k),
        )
}

/// No two directory rows share a path.
pub open spec fn dirs_unique(rows: Seq<RowV>) -> bool {
    forall|j: int, m: int|
        0 <= j < m < rows.len() && (#[trigger] rows[j]).dir && (#[trigger] rows[m]).dir ==> rows[
            j
        ].path != rows[m].path
}

/// Directory rows carry no bytes.
proof fn lemma_sum_own_dirs(s: Seq<RowV>)
    requires
        forall|j: int| 0 <= j < s.len() ==> is_dir_row(#[trigger] s[j]),
    ensures
        sum_own(s) == 0,
    decreases s.len(),
{
    if s.len() > 0 {
        assert(is_dir_row(s[s.len() - 1]));
        assert(own_size(s.last()) == 0);
        lemma_sum_own_dirs(s.drop_last());
    }
}

/// The file rows carry exactly the records' lengths.
proof fn lemma_sum_own_file_rows(files: Seq<UpFileV>)
    ensures
        sum_own(file_rows_spec(files)) == sum_lengths(files),
    decreases files.len(),
{
    if files.len() == 0 {
        assert(file_rows_spec(files) =~= Seq::<RowV>::empty());
    } else {
        assert(file_rows_spec(files).drop_last() =~= file_rows_spec(files.drop_last()));
        assert(file_rows_spec(files).last() == file_row_at(files, files.len() - 1));
        lemma_sum_own_file_rows(files.drop_last());
    }
}

/// Inserting a row adds it to the sequence's contents.
proof fn lemma_insert_row_multiset(s: Seq<RowV>, x: RowV)
    ensures
        insert_row(s, x).to_multiset() == s.to_multiset().insert(x),
    decreases s.len(),
{
    broadcast use vstd::seq_lib::group_to_multiset_ensures;
    broadcast use vstd::multiset::group_multiset_axioms;

    if s.len() > 0 && row_cmp(s.last(), x) == SegOrdering::Greater {
        lemma_insert_row_multiset(s.drop_last(), x);
        assert(s.drop_last().push(s.last()) =~= s);
        assert(insert_row(s, x).to_multiset() == insert_row(s.drop_last(), x).to_multiset().insert(
            s.last(),
        ));
        assert(s.drop_last().to_multiset().insert(x).insert(s.last())
            =~= s.drop_last().to_multiset().insert(s.last()).insert(x));
    }
}

/// Sorting keeps exactly the rows it was given.
pub proof fn lemma_sort_rows_multiset(s: Seq<RowV>)
    ensures
        sort_rows_spec(s).to_multiset() == s.to_multiset(),
    decreases s.len(),
{
    broadcast use vstd::seq_lib::group_to_multiset_ensures;

    if s.len() > 0 {
        lemma_sort_rows_multiset(s.drop_last());
        lemma_insert_row_multiset(sort_rows_spec(s.drop_last()), s.last());
        assert(s.drop_last().push(s.last()) =~= s);
    }
}

/// Under a transitive order, adjacent sortedness reaches every pair.
proof fn lemma_sorted_le(s: Seq<RowV>, i: int, j: int)
    requires
        sorted_rows(s),
        forall|a: RowV, b: RowV, c: RowV|
            row_cmp(a, b).is_le() && #[trigger] row_cmp(b, c).is_le() ==> #[trigger] row_cmp(
                a,
                c,
            ).is_le(),
        forall|a: RowV, b: RowV| #[trigger] row_cmp(b, a) == flip(row_cmp(a, b)),
        0 <= i <= j < s.len(),
    ensures
        row_cmp(s[i], s[j]).is_le(),
    decreases j - i,
{
    if i == j {
        assert(row_cmp(s[i], s[i]) == flip(row_cmp(s[i], s[i])));
    } else {
        lemma_sorted_le(s, i, j - 1);
        assert(row_cmp(s[j - 1], s[(j - 1) + 1]) != SegOrdering::Greater);
    }
}

/// Law: the sorted listing is unique.  Two sequences that hold the same
/// rows and are both ordered by the full row order are the same sequence,
/// provided the order behaves as a total order on rows: transitive,
/// reversing under swapped arguments, and without ties between distinct
/// rows.  (The collated comparison can tie distinct segments — numeric
/// collation compares "02" and "2" as equal — so the last hypothesis
/// excludes row sets that tell such paths apart only by the collation.)
pub proof fn lemma_sorted_unique(s1: Seq<RowV>, s2: Seq<RowV>)
    requires
        s1.to_multiset() == s2.to_multiset(),
        sorted_rows(s1),
        sorted_rows(s2),
        forall|a: RowV, b: RowV, c: RowV|
            row_cmp(a, b).is_le() && #[trigger] row_cmp(b, c).is_le() ==> #[trigger] row_cmp(
                a,
                c,
            ).is_le(),
        forall|a: RowV, b: RowV| #[trigger] row_cmp(b, a) == flip(row_cmp(a, b)),
        forall|a: RowV, b: RowV| #[trigger] row_cmp(a, b) == SegOrdering::Equal ==> a == b,
    ensures
        s1 == s2,
    decreases s1.len(),
{
    broadcast use vstd::seq_lib::group_to_multiset_ensures;
    broadcast use vstd::multiset::group_multiset_axioms;

    if s1.len() == 0 {
        assert(s2.to_multiset().len() == 0);
        assert(s1 =~= s2);
    } else {
        assert(s1.to_multiset().len() == s1.len());
        assert(s2.to_multiset().len() == s2.len());
        assert(s2.len() == s1.len());
        // the two heads are both least, so they are the same row
        assert(s1.contains(s2[0])) by {
            assert(s2.to_multiset().count(s2[0]) > 0);
            assert(s1.to_multiset().count(s2[0]) > 0);
        }
        assert(s2.contains(s1[0])) by {
            assert(s1.to_multiset().count(s1[0]) > 0);
            assert(s2.to_multiset().count(s1[0]) > 0);
        }
        let k1 = choose|k: int| 0 <= k < s1.len() && s1[k] == s2[0];
        let k2 = choose|k: int| 0 <= k < s2.len() && s2[k] == s1[0];
        lemma_sorted_le(s1, 0, k1);
        lemma_sorted_le(s2, 0, k2);
        assert(row_cmp(s1[0], s2[0]).is_le());
        assert(row_cmp(s2[0], s1[0]).is_le());
        assert(row_cmp(s1[0], s2[0]) == SegOrdering::Equal);
        assert(s1[0] == s2[0]);
        // drop the shared head and recur
        let t1 = s1.drop_first();
        let t2 = s2.drop_first();
        assert(t1 =~= s1.remove(0));
        assert(t2 =~= s2.remove(0));
        assert(t1.to_multiset() == t2.to_multiset()) by {
            assert(s1.remove(0).to_multiset() == s1.to_multiset().remove(s1[0]));
            assert(s2.remove(0).to_multiset() == s2.to_multiset().remove(s2[0]));
        }
        assert(sorted_rows(t1)) by {
            assert forall|m: int|
                0 <= m < t1.len() - 1 implies (#[trigger] row_cmp(t1[m], t1[m + 1]))
                != SegOrdering::Greater by {
                assert(t1[m] == s1[m + 1]);
                assert(t1[m + 1] == s1[m + 2]);
                assert(row_cmp(s1[m + 1], s1[(m + 1) + 1]) != SegOrdering::Greater);
            }
        }
        assert(sorted_rows(t2)) by {
            assert forall|m: int|
                0 <= m < t2.len() - 1 implies (#[trigger] row_cmp(t2[m], t2[m + 1]))
                != SegOrdering::Greater by {
                assert(t2[m] == s2[m + 1]);
                assert(t2[m + 1] == s2[m + 2]);
                assert(row_cmp(s2[m + 1], s2[(m + 1) + 1]) != SegOrdering::Greater);
            }
        }
        lemma_sorted_unique(t1, t2);
        assert forall|k: int| 0 <= k < s1.len() implies s1[k] == s2[k] by {
            if k > 0 {
                assert(t1[k - 1] == s1[k]);
                assert(t2[k - 1] == s2[k]);
            }
        }
        assert(s1 =~= s2);
    }
}

/// Before sorting, the synthesized rows are pairwise distinct: directory
/// rows differ by path, file rows by position, and the two kinds differ in
/// the directory flag.
proof fn lemma_pre_rows_distinct(dseq: Seq<RowV>, fseq: Seq<RowV>, gf: Seq<UpFileV>)
    requires
        gf.len() <= usize::MAX,
        forall|j: int| 0 <= j < dseq.len() ==> is_dir_row(#[trigger] dseq[j]),
        forall|j: int, m: int|
            0 <= j < m < dseq.len() ==> (#[trigger] dseq[j]).path != (#[trigger] dseq[m]).path,
        fseq == file_rows_spec(gf),
    ensures
        (dseq + fseq).no_duplicates(),
{
    let pre = dseq + fseq;
    assert forall|i: int, j: int|
        0 <= i < pre.len() && 0 <= j < pre.len() && i != j implies pre[i] != pre[j] by {
        if i < dseq.len() && j < dseq.len() {
            if i < j {
                assert(dseq[i].path != dseq[j].path);
            } else {
                assert(dseq[j].path != dseq[i].path);
            }
        } else if i >= dseq.len() && j >= dseq.len() {
            let i2 = i - dseq.len();
            let j2 = j - dseq.len();
            assert(fseq.len() == gf.len());
            assert(pre[i] == fseq[i2]);
            assert(pre[j] == fseq[j2]);
            assert(file_rows_spec(gf)[i2] == file_row_at(gf, i2));
            assert(file_rows_spec(gf)[j2] == file_row_at(gf, j2));
            assert(pre[i].so == Some(i2 as usize));
            assert(pre[j].so == Some(j2 as usize));
        } else {
            let d = if i < dseq.len() { i } else { j };
            let f = if i < dseq.len() { j } else { i };
            assert(is_dir_row(dseq[d]));
            assert(pre[f] == file_row_at(gf, f - dseq.len()));
            assert(pre[d].dir && !pre[f].dir);
        }
    }
}

/// Synthesizes and orders the flat listing: one file row per record, one
/// directory row per distinct implied ancestor, sorted by the collated
/// path order with directories first and original position as tie-break.
pub fn info_files_to_file_rows(upverted: &[UpvertedFile]) -> (r: Vec<FileRow>)
    ensures
        sorted_rows(dv(r@)),
        dv(r@).no_duplicates(),
        forall|row: RowV|
            #[trigger] dv(r@).contains(row) <==> (is_file_row_of(dv(upverted@), row) || (
            is_dir_row(row) && is_proper_prefix_of(row.path, dv(upverted@)))),
        rows_closed(dv(r@)),
        dirs_unique(dv(r@)),
        sum_own(dv(r@)) == sum_lengths(dv(upverted@)),
{
    broadcast use vstd::seq_lib::group_to_multiset_ensures;

    let ghost gf = dv(upverted@);
    let n = upverted.len();
    proof {
        assert(gf.len() == n);
    }
    let mut rows = dir_file_rows(upverted);
    let ghost dvec: Seq<FileRow> = rows@;
    let ghost dseq = dv(rows@);
    let mut fr = file_rows(upverted);
    let ghost fvec: Seq<FileRow> = fr@;
    let ghost fseq = dv(fr@);
    rows.append(&mut fr);
    let ghost pre = dseq + fseq;
    proof {
        crate::seqs::dv_concat(dvec, fvec);
        assert(dv(rows@) == pre);
    }
    let collator = new_collator();
    sort_rows(&mut rows, &collator);
    let ghost res = dv(rows@);
    proof {
        lemma_sort_rows_multiset(pre);
        assert(res.to_multiset() == pre.to_multiset());
        lemma_pre_rows_distinct(dseq, fseq, gf);
        pre.lemma_multiset_has_no_duplicates();
        res.lemma_multiset_has_no_duplicates_conv();
        assert(res.no_duplicates());
        // what the listing contains
        assert forall|row: RowV| #[trigger] res.contains(row) implies (is_file_row_of(gf, row) || (
        is_dir_row(row) && is_proper_prefix_of(row.path, gf))) by {
            assert(res.to_multiset().count(row) > 0);
            assert(pre.to_multiset().count(row) > 0);
            assert(pre.contains(row));
            let i = choose|i: int| 0 <= i < pre.len() && pre[i] == row;
            if i < dseq.len() {
                assert(row == dseq[i]);
                assert(is_dir_row(row));
                assert(is_proper_prefix_of(row.path, gf));
            } else {
                assert(row == fseq[i - dseq.len()]);
                assert(row == file_row_at(gf, i - dseq.len()));
            }
        }
        assert forall|row: RowV|
            (is_file_row_of(gf, row) || (is_dir_row(row) && is_proper_prefix_of(
                row.path,
                gf,
            ))) implies #[trigger] res.contains(row) by {
            if is_file_row_of(gf, row) {
                let i = choose|i: int| 0 <= i < gf.len() && row == #[trigger] file_row_at(gf, i);
                assert(pre[dseq.len() + i] == fseq[i]);
                assert(fseq[i] == file_row_at(gf, i));
                assert(pre.contains(row));
            } else {
                assert(contains_dir_row(dseq, row.path));
                let j = choose|j: int| 0 <= j < dseq.len() && dseq[j] == dir_row(row.path);
                assert(row == dir_row(row.path));
                assert(pre[j] == dseq[j]);
                assert(pre.contains(row));
            }
            assert(res.to_multiset().count(row) > 0);
        }
        // every ancestor of every row is listed
        assert forall|j: int, k: int|
            0 <= j < res.len() && 1 <= k < res[j].path.len() implies contains_dir_row(
            res,
            #[trigger] res[j].path.take(k),
        ) by {
            let row = res[j];
            assert(res.contains(row));
            let p = row.path.take(k);
            if is_file_row_of(gf, row) {
                let i = choose|i: int| 0 <= i < gf.len() && row == #[trigger] file_row_at(gf, i);
                assert(row.path == gf[i].path);
                assert(p == gf[i].path.take(k));
                assert(is_proper_prefix_of(p, gf));
            } else {
                let (i, k0) = choose|i: int, k0: int|
                    0 <= i < gf.len() && 1 <= k0 < gf[i].path.len() && row.path == #[trigger] gf[
                        i
                    ].path.take(k0);
                assert(gf[i].path.take(k0).take(k) =~= gf[i].path.take(k));
                assert(p == gf[i].path.take(k));
                assert(is_proper_prefix_of(p, gf));
            }
            assert(res.contains(dir_row(p)));
            let m = choose|m: int| 0 <= m < res.len() && res[m] == dir_row(p);
            assert(contains_dir_row(res, p));
        }
        // no two directory rows share a path
        assert forall|j: int, m: int|
            0 <= j < m < res.len() && (#[trigger] res[j]).dir && (#[trigger] res[m]).dir implies
            res[j].path != res[m].path by {
            assert(res.contains(res[j]));
            assert(res.contains(res[m]));
            if res[j].path == res[m].path {
                assert(is_dir_row(res[j]) && is_dir_row(res[m])) by {
                    if is_file_row_of(gf, res[j]) {
                        let i = choose|i: int|
                            0 <= i < gf.len() && res[j] == #[trigger] file_row_at(gf, i);
                        assert(!res[j].dir);
                    }
                    if is_file_row_of(gf, res[m]) {
                        let i = choose|i: int|
                            0 <= i < gf.len() && res[m] == #[trigger] file_row_at(gf, i);
                        assert(!res[m].dir);
                    }
                }
                assert(res[j] == dir_row(res[j].path));
                assert(res[m] == dir_row(res[m].path));
                assert(res[j] == res[m]);
            }
        }
        // the sizes add up to the records' lengths
        crate::seqs::lemma_sum_by_permutation(res, pre, row_own_f());
        crate::seqs::lemma_sum_by_concat(dseq, fseq, row_own_f());
        lemma_sum_own_dirs(dseq);
        lemma_sum_own_file_rows(gf);
    }
    rows
}

} // verus!
