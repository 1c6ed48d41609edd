//! The extension summary: up to seven representative lowercase file
//! extensions of a collection, ranked by the largest file size carrying
//! each extension.
//!
//! An extension is what follows the last dot of a name, absent when there
//! is no dot or only a leading one.  Extensions are grouped after
//! lowercasing, each keeping the largest length seen; the summary lists
//! them by length descending, ties broken by the extension itself, and
//! cuts off after seven.
use crate::api::FileV;
use crate::api::InfoFiles;
use crate::collate::SegOrdering;
use crate::seqs::dv;
use vstd::prelude::*;

verus! {

broadcast use crate::seqs::group_dv;

/// The index of the last dot of `s`, or `-1` when there is none.
pub open spec fn last_dot(s: Seq<char>) -> int
    decreases s.len(),
{
    if s.len() == 0 {
        -1
    } else if s.last() == '.' {
        s.len() - 1
    } else {
        last_dot(s.drop_last())
    }
}

/// The extension of a name: what follows the last dot, absent when there
/// is no dot or the only dot leads the name.
pub open spec fn ext_of(s: Seq<char>) -> Option<Seq<char>> {
    let i = last_dot(s);
    if i >= 1 {
        Some(s.subrange(i + 1, s.len() as int))
    } else {
        None
    }
}

/// A dot with none after it is the last.
proof fn lemma_last_dot_char(s: Seq<char>, i: int)
    requires
        0 <= i < s.len(),
        s[i] == '.',
        forall|k: int| i < k < s.len() ==> s[k] != '.',
    ensures
        last_dot(s) == i,
    decreases s.len(),
{
    if i == s.len() - 1 {
    } else {
        lemma_last_dot_char(s.drop_last(), i);
    }
}

/// Without a dot there is no last one.
proof fn lemma_last_dot_none(s: Seq<char>)
    requires
        forall|k: int| 0 <= k < s.len() ==> s[k] != '.',
    ensures
        last_dot(s) == -1,
    decreases s.len(),
{
    if s.len() > 0 {
        lemma_last_dot_none(s.drop_last());
    }
}

/// Finds the extension of a name.
fn extension_of(s: &str) -> (r: Option<String>)
    ensures
        match r {
            Some(e) => ext_of(s@) == Some(e@),
            None => ext_of(s@) is None,
        },
{
    let n = s.unicode_len();
    let mut i: usize = n;
    while i > 0
        invariant
            i <= n,
            n == s@.len(),
            forall|k: int| i <= k < n ==> s@[k] != '.',
        decreases i,
    {
        if s.get_char(i - 1) == '.' {
            proof {
                lemma_last_dot_char(s@, i - 1);
            }
            if i - 1 >= 1 {
                let e = s.substring_char(i, n).to_owned();
                return Some(e);
            } else {
                return None;
            }
        }
        i -= 1;
    }
    proof {
        lemma_last_dot_none(s@);
    }
    None
}

/// Hands back the lowercase form of a string.  Relies on
/// `str::to_lowercase`: Unicode lowercasing, a function of the characters
/// alone, here named [`lower_of`].
#[verifier::external_body]
fn lowercase(s: &str) -> (r: String)
    ensures
        r@ == lower_of(s@),
{
    s.to_lowercase()
}

/// What `str::to_lowercase` returns on the given characters.
pub uninterp spec fn lower_of(s: Seq<char>) -> Seq<char>;

/// One extension with the largest length seen for it.
pub ghost struct PairV {
    pub ext: Seq<char>,
    pub len: i64,
}

/// One extension with the largest length seen for it, as built.
struct ExtLen {
    ext: String,
    len: i64,
}

impl View for ExtLen {
    type V = PairV;

    closed spec fn view(&self) -> PairV {
        PairV { ext: self.ext@, len: self.len }
    }
}

impl DeepView for ExtLen {
    type V = PairV;

    closed spec fn deep_view(&self) -> PairV {
        self.view()
    }
}

/// The lowercased extension a record contributes, if any: its path's last
/// segment must exist and carry an extension.
pub open spec fn rec_ext(f: FileV) -> Option<Seq<char>> {
    match f.path {
        Some(p) => if p.len() > 0 {
            match ext_of(p.last()) {
                Some(e) => Some(lower_of(e)),
                None => None,
            }
        } else {
            None
        },
        None => None,
    }
}

/// Records the length for an extension: a new entry at the end, or the
/// larger length where the extension is already present.
pub open spec fn upd_pairs(acc: Seq<PairV>, e: Seq<char>, len: i64) -> Seq<PairV>
    decreases acc.len(),
{
    if acc.len() == 0 {
        seq![PairV { ext: e, len }]
    } else if acc[0].ext == e {
        if acc[0].len >= len {
            acc
        } else {
            acc.update(0, PairV { ext: e, len })
        }
    } else {
        seq![acc[0]] + upd_pairs(acc.drop_first(), e, len)
    }
}

/// The extension table of a record list, in order of first occurrence.
pub open spec fn pairs_of(files: Seq<FileV>) -> Seq<PairV>
    decreases files.len(),
{
    if files.len() == 0 {
        Seq::empty()
    } else {
        let prev = pairs_of(files.drop_last());
        match rec_ext(files.last()) {
            Some(e) => upd_pairs(prev, e, files.last().length),
            None => prev,
        }
    }
}

/// Plain lexicographic order over the characters' code points.
pub open spec fn chars_cmp(a: Seq<char>, b: Seq<char>) -> SegOrdering
    decreases a.len(),
{
    if a.len() == 0 && b.len() == 0 {
        SegOrdering::Equal
    } else if a.len() == 0 {
        SegOrdering::Less
    } else if b.len() == 0 {
        SegOrdering::Greater
    } else if (a[0] as u32) < (b[0] as u32) {
        SegOrdering::Less
    } else if (a[0] as u32) > (b[0] as u32) {
        SegOrdering::Greater
    } else {
        chars_cmp(a.skip(1), b.skip(1))
    }
}

/// The summary order: length descending, then extension ascending.
pub open spec fn pair_cmp(a: PairV, b: PairV) -> SegOrdering {
    if a.len > b.len {
        SegOrdering::Less
    } else if a.len < b.len {
        SegOrdering::Greater
    } else {
        chars_cmp(a.ext, b.ext)
    }
}

/// Inserting one pair into the summary order, scanning from the right.
pub open spec fn insert_pair(s: Seq<PairV>, x: PairV) -> Seq<PairV>
    decreases s.len(),
{
    if s.len() > 0 && pair_cmp(s.last(), x) == SegOrdering::Greater {
        insert_pair(s.drop_last(), x).push(s.last())
    } else {
        s.push(x)
    }
}

/// Insertion sort of the extension table under the summary order.
pub open spec fn sort_pairs_spec(s: Seq<PairV>) -> Seq<PairV>
    decreases s.len(),
{
    if s.len() == 0 {
        Seq::empty()
    } else {
        insert_pair(sort_pairs_spec(s.drop_last()), s.last())
    }
}

/// The extensions of the table's entries, in order.
pub open spec fn exts_of(s: Seq<PairV>) -> Seq<Seq<char>> {
    s.map_values(|pr: PairV| pr.ext)
}

/// What the summary returns: the extension table sorted, cut to seven,
/// extensions only — except that a collection holding exactly one record
/// without a path is summarized by its display name's extension alone.
pub open spec fn ext_summary(files: Seq<FileV>, name: Seq<char>) -> Seq<Seq<char>> {
    if files.len() == 1 && files[0].path is None {
        match ext_of(name) {
            Some(e) => seq![lower_of(e)],
            None => Seq::empty(),
        }
    } else {
        let sorted = sort_pairs_spec(pairs_of(files));
        exts_of(sorted).take(
            if sorted.len() < 7 {
                sorted.len() as int
            } else {
                7
            },
        )
    }
}

/// Comparing two strings character by character from position `i` on,
/// after the first `i` characters matched.
proof fn lemma_chars_cmp_skip(a: Seq<char>, b: Seq<char>, i: int)
    requires
        0 <= i <= a.len(),
        i <= b.len(),
        forall|k: int| 0 <= k < i ==> (a[k] as u32) == (b[k] as u32),
    ensures
        chars_cmp(a, b) == chars_cmp(a.skip(i), b.skip(i)),
    decreases i,
{
    if i == 0 {
        assert(a.skip(0) =~= a);
        assert(b.skip(0) =~= b);
    } else {
        lemma_chars_cmp_skip(a.skip(1), b.skip(1), i - 1);
        assert(a.skip(1).skip(i - 1) =~= a.skip(i));
        assert(b.skip(1).skip(i - 1) =~= b.skip(i));
    }
}

/// Compares two strings under the plain character order.
fn cmp_strings(a: &String, b: &String) -> (r: SegOrdering)
    ensures
        r == chars_cmp(a@, b@),
{
    let na = a.as_str().unicode_len();
    let nb = b.as_str().unicode_len();
    let mut i: usize = 0;
    loop
        invariant
            i <= na,
            i <= nb,
            na == a@.len(),
            nb == b@.len(),
            forall|k: int| 0 <= k < i ==> (a@[k] as u32) == (b@[k] as u32),
        decreases na - i,
    {
        proof {
            lemma_chars_cmp_skip(a@, b@, i as int);
        }
        if i >= na || i >= nb {
            if na == nb {
                proof {
                    assert(a@.skip(i as int) =~= Seq::<char>::empty());
                    assert(b@.skip(i as int) =~= Seq::<char>::empty());
                }
                return SegOrdering::Equal;
            } else if na < nb {
                proof {
                    assert(a@.skip(i as int) =~= Seq::<char>::empty());
                    assert(b@.skip(i as int).len() > 0);
                }
                return SegOrdering::Less;
            } else {
                proof {
                    assert(b@.skip(i as int) =~= Seq::<char>::empty());
                    assert(a@.skip(i as int).len() > 0);
                }
                return SegOrdering::Greater;
            }
        }
        let ca = a.as_str().get_char(i);
        let cb = b.as_str().get_char(i);
        proof {
            assert(a@.skip(i as int)[0] == a@[i as int]);
            assert(b@.skip(i as int)[0] == b@[i as int]);
        }
        if (ca as u32) < (cb as u32) {
            return SegOrdering::Less;
        } else if (ca as u32) > (cb as u32) {
            return SegOrdering::Greater;
        }
        i += 1;
    }
}

/// Compares two table entries under the summary order.
fn cmp_pairs(a: &ExtLen, b: &ExtLen) -> (r: SegOrdering)
    ensures
        r == pair_cmp(a@, b@),
{
    if a.len > b.len {
        SegOrdering::Less
    } else if a.len < b.len {
        SegOrdering::Greater
    } else {
        cmp_strings(&a.ext, &b.ext)
    }
}

/// Where the scan stops is where the insertion lands, for table entries.
proof fn lemma_insert_pair_at(s: Seq<PairV>, x: PairV, j: int)
    requires
        0 <= j <= s.len(),
        forall|k: int| j <= k < s.len() ==> pair_cmp(#[trigger] s[k], x) == SegOrdering::Greater,
        j > 0 ==> pair_cmp(s[j - 1], x) != SegOrdering::Greater,
    ensures
        insert_pair(s, x) == s.take(j) + seq![x] + s.skip(j),
    decreases s.len(),
{
    if j == s.len() {
        assert(insert_pair(s, x) == s.push(x));
        assert(s.take(j) + seq![x] + s.skip(j) =~= s.push(x));
    } else {
        assert(pair_cmp(s[s.len() - 1], x) == SegOrdering::Greater);
        assert(insert_pair(s, x) == insert_pair(s.drop_last(), x).push(s.last()));
        lemma_insert_pair_at(s.drop_last(), x, j);
        assert((s.drop_last().take(j) + seq![x] + s.drop_last().skip(j)).push(s.last()) =~= s.take(
            j,
        ) + seq![x] + s.skip(j));
    }
}

/// One insertion step of the summary sort.
#[verifier::rlimit(50)]
proof fn lemma_pair_sort_step(dvpre: Seq<PairV>, newdv: Seq<PairV>, orig: Seq<PairV>, i: int, j: int)
    requires
        1 <= i < dvpre.len(),
        dvpre.len() == orig.len(),
        0 <= j <= i,
        newdv == dvpre.remove(i).insert(j, dvpre[i]),
        dvpre.take(i) == sort_pairs_spec(orig.take(i)),
        dvpre.skip(i) == orig.skip(i),
        forall|k: int|
            j <= k < i ==> pair_cmp(#[trigger] dvpre[k], dvpre[i]) == SegOrdering::Greater,
        j > 0 ==> pair_cmp(dvpre[j - 1], dvpre[i]) != SegOrdering::Greater,
    ensures
        newdv.take(i + 1) == sort_pairs_spec(orig.take(i + 1)),
        newdv.skip(i + 1) == orig.skip(i + 1),
{
    let x = dvpre[i];
    lemma_insert_pair_at(dvpre.take(i), x, j);
    let target = dvpre.take(i).take(j) + seq![x] + dvpre.take(i).skip(j);
    assert(insert_pair(dvpre.take(i), x) == target);
    assert(newdv.take(i + 1) =~= target);
    assert(orig.take(i + 1).drop_last() =~= orig.take(i));
    assert(orig.take(i + 1).last() == orig[i]);
    assert(dvpre.skip(i)[0] == orig.skip(i)[0]);
    assert(x == orig[i]);
    assert(sort_pairs_spec(orig.take(i + 1)) == insert_pair(sort_pairs_spec(orig.take(i)), orig[i]));
    assert(newdv.take(i + 1) == sort_pairs_spec(orig.take(i + 1)));
    assert(newdv.skip(i + 1) =~= dvpre.skip(i + 1));
    assert(dvpre.skip(i + 1) =~= orig.skip(i + 1)) by {
        assert forall|k: int|
            0 <= k < dvpre.len() - i - 1 implies #[trigger] dvpre.skip(i + 1)[k] == orig.skip(
            i + 1,
        )[k] by {
            assert(dvpre.skip(i)[k + 1] == orig.skip(i)[k + 1]);
        }
    }
}

/// Sorts the extension table in place under the summary order; the result
/// is exactly the spec-level insertion sort.
fn sort_pairs(v: &mut Vec<ExtLen>)
    ensures
        dv(final(v)@) == sort_pairs_spec(dv(old(v)@)),
{
    let ghost orig = dv(old(v)@);
    if v.len() == 0 {
        proof {
            assert(dv(v@) =~= sort_pairs_spec(orig));
        }
        return ;
    }
    let mut i: usize = 1;
    proof {
        assert(orig.take(1).drop_last() =~= Seq::<PairV>::empty());
        assert(orig.take(1).last() == orig[0]);
        assert(sort_pairs_spec(Seq::<PairV>::empty()) == Seq::<PairV>::empty());
        assert(insert_pair(Seq::<PairV>::empty(), orig[0]) == Seq::<PairV>::empty().push(orig[0]));
        assert(sort_pairs_spec(orig.take(1)) == insert_pair(
            sort_pairs_spec(Seq::<PairV>::empty()),
            orig[0],
        ));
        assert(dv(v@).take(1) =~= Seq::<PairV>::empty().push(orig[0]));
        assert(dv(v@).skip(1) =~= orig.skip(1));
    }
    while i < v.len()
        invariant
            1 <= i <= v@.len(),
            v@.len() == old(v)@.len(),
            orig == dv(old(v)@),
            dv(v@).take(i as int) == sort_pairs_spec(orig.take(i as int)),
            dv(v@).skip(i as int) == orig.skip(i as int),
        decreases v@.len() - i,
    {
        let ghost dvpre = dv(v@);
        let ghost x = dvpre[i as int];
        let mut j: usize = i;
        while j > 0
            invariant
                j <= i < v@.len(),
                dvpre == dv(v@),
                x == dvpre[i as int],
                forall|k: int|
                    j <= k < i ==> pair_cmp(#[trigger] dvpre[k], x) == SegOrdering::Greater,
            ensures
                j <= i,
                forall|k: int|
                    j <= k < i ==> pair_cmp(#[trigger] dvpre[k], x) == SegOrdering::Greater,
                j > 0 ==> pair_cmp(dvpre[j - 1], x) != SegOrdering::Greater,
            decreases j,
        {
            let c = cmp_pairs(&v[j - 1], &v[i]);
            if c == SegOrdering::Greater {
                j -= 1;
            } else {
                break ;
            }
        }
        let ghost prevvec: Seq<ExtLen> = v@;
        let row = v.remove(i);
        let ghost midvec: Seq<ExtLen> = v@;
        proof {
            crate::seqs::dv_remove(prevvec, i as int);
            assert(row.deep_view() == x);
        }
        v.insert(j, row);
        proof {
            crate::seqs::dv_insert(midvec, j as int, row);
            assert(dv(v@) == dvpre.remove(i as int).insert(j as int, x));
            lemma_pair_sort_step(dvpre, dv(v@), orig, i as int, j as int);
        }
        i += 1;
    }
    proof {
        assert(dv(v@).take(v@.len() as int) =~= dv(v@));
        assert(orig.take(orig.len() as int) =~= orig);
    }
}

/// An update that found its extension at `j` keeps the larger length.
proof fn lemma_upd_pairs_found(acc: Seq<PairV>, e: Seq<char>, len: i64, j: int)
    requires
        0 <= j < acc.len(),
        acc[j].ext == e,
        forall|k: int| 0 <= k < j ==> (#[trigger] acc[k]).ext != e,
    ensures
        upd_pairs(acc, e, len) == if acc[j].len >= len {
            acc
        } else {
            acc.update(j, PairV { ext: e, len })
        },
    decreases acc.len(),
{
    if j == 0 {
    } else {
        lemma_upd_pairs_found(acc.drop_first(), e, len, j - 1);
        if acc[j].len >= len {
            assert(seq![acc[0]] + acc.drop_first() =~= acc);
        } else {
            assert(seq![acc[0]] + acc.drop_first().update(j - 1, PairV { ext: e, len })
                =~= acc.update(j, PairV { ext: e, len }));
        }
    }
}

/// An update that found no matching extension appends a new entry.
proof fn lemma_upd_pairs_new(acc: Seq<PairV>, e: Seq<char>, len: i64)
    requires
        forall|k: int| 0 <= k < acc.len() ==> (#[trigger] acc[k]).ext != e,
    ensures
        upd_pairs(acc, e, len) == acc.push(PairV { ext: e, len }),
    decreases acc.len(),
{
    if acc.len() > 0 {
        lemma_upd_pairs_new(acc.drop_first(), e, len);
        assert(seq![acc[0]] + acc.drop_first().push(PairV { ext: e, len }) =~= acc.push(
            PairV { ext: e, len },
        ));
    }
}

/// Summarizes a collection's dominant file extensions: up to seven
/// lowercase extensions, ranked by the largest file length carrying each,
/// ties broken by the extension itself.  A collection of exactly one
/// record without a path is summarized by its display name's extension.
pub fn file_types(info_files: &InfoFiles) -> (r: Vec<String>)
    ensures
        dv(r@) == ext_summary(dv(info_files.files@), info_files.info.name@),
        dv(r@).len() <= 7,
{
    let files = &info_files.files;
    let ghost gf = dv(files@);
    if files.len() == 1 && files[0].path.is_none() {
        let mut out: Vec<String> = Vec::new();
        match extension_of(info_files.info.name.as_str()) {
            Some(e) => {
                let low = lowercase(e.as_str());
                out.push(low);
                proof {
                    assert(dv(out@) =~= seq![lower_of(e@)]);
                }
            },
            None => {
                proof {
                    assert(dv(out@) =~= Seq::<Seq<char>>::empty());
                }
            },
        }
        return out;
    }
    let mut table: Vec<ExtLen> = Vec::new();
    proof {
        assert(pairs_of(gf.take(0)) =~= Seq::<PairV>::empty());
        assert(dv(table@) =~= Seq::<PairV>::empty());
    }
    let mut i: usize = 0;
    while i < files.len()
        invariant
            i <= files@.len(),
            gf == dv(files@),
            dv(table@) == pairs_of(gf.take(i as int)),
            forall|j: int, k: int|
                0 <= j < k < dv(table@).len() ==> (#[trigger] dv(table@)[j]).ext != (
                #[trigger] dv(table@)[k]).ext,
        decreases files@.len() - i,
    {
        let fo = &files[i];
        let e_opt: Option<String> = match &fo.path {
            Some(p) => {
                if p.len() > 0 {
                    match extension_of(p[p.len() - 1].as_str()) {
                        Some(e) => Some(lowercase(e.as_str())),
                        None => None,
                    }
                } else {
                    None
                }
            },
            None => None,
        };
        proof {
            assert(gf[i as int] == files@[i as int].deep_view());
            assert(gf.take(i + 1).drop_last() =~= gf.take(i as int));
            assert(gf.take(i + 1).last() == gf[i as int]);
            assert(match e_opt {
                Some(e) => rec_ext(gf[i as int]) == Some(e@),
                None => rec_ext(gf[i as int]) is None,
            });
        }
        let ghost prevt = dv(table@);
        if let Some(e) = e_opt {
            let mut j: usize = 0;
            let mut found: bool = false;
            let mut fidx: usize = 0;
            while j < table.len()
                invariant_except_break
                    !found,
                invariant
                    j <= table@.len(),
                    forall|k: int| 0 <= k < j ==> (#[trigger] dv(table@)[k]).ext != e@,
                ensures
                    found ==> fidx < table@.len() && dv(table@)[fidx as int].ext == e@ && forall|
                        k: int,
                    |
                        0 <= k < fidx ==> (#[trigger] dv(table@)[k]).ext != e@,
                    !found ==> forall|k: int|
                        0 <= k < dv(table@).len() ==> (#[trigger] dv(table@)[k]).ext != e@,
                decreases table@.len() - j,
            {
                if table[j].ext == e {
                    found = true;
                    fidx = j;
                    proof {
                        assert(dv(table@)[j as int].ext == e@);
                    }
                    break ;
                }
                j += 1;
            }
            if found {
                proof {
                    lemma_upd_pairs_found(prevt, e@, files@[i as int].length, fidx as int);
                }
                if table[fidx].len < files[i].length {
                    let len = files[i].length;
                    let ghost prevvec: Seq<ExtLen> = table@;
                    table.set(fidx, ExtLen { ext: e, len });
                    proof {
                        assert(dv(table@) =~= prevt.update(
                            fidx as int,
                            PairV { ext: e@, len: files@[i as int].length },
                        ));
                    }
                }
            } else {
                proof {
                    lemma_upd_pairs_new(prevt, e@, files@[i as int].length);
                }
                let len = files[i].length;
                let ghost prevvec: Seq<ExtLen> = table@;
                table.push(ExtLen { ext: e, len });
                proof {
                    crate::seqs::dv_push(prevvec, ExtLen { ext: e, len });
                }
            }
        }
        i += 1;
    }
    proof {
        assert(gf.take(gf.len() as int) =~= gf);
    }
    sort_pairs(&mut table);
    let ghost sorted = dv(table@);
    let mut out: Vec<String> = Vec::new();
    proof {
        assert(dv(out@) =~= exts_of(sorted).take(0));
    }
    let mut m: usize = 0;
    while m < table.len() && m < 7
        invariant
            m <= table@.len(),
            m <= 7,
            sorted == dv(table@),
            dv(out@) == exts_of(sorted).take(m as int),
        decreases table@.len() - m,
    {
        let ghost prevo: Seq<String> = out@;
        out.push(table[m].ext.clone());
        proof {
            crate::seqs::dv_push(prevo, table@[m as int].ext);
            assert(dv(out@) =~= exts_of(sorted).take(m + 1));
        }
        m += 1;
    }
    proof {
        if sorted.len() < 7 {
            assert(m == sorted.len());
        } else {
            assert(m == 7);
        }
    }
    out
}

} // verus!
