//! Update detection: comparing the replicas with the archive, directory by
//! directory, and collecting the paths at which they differ.
use vstd::prelude::*;
use crate::archive::{Archive, ArchiveEntries, hash_of, copy_entries, lemma_filter_step};
use crate::config::{Ignore, ignored_by, regex_matches};
use crate::error::SyncError;
use crate::paths::{TreePath, path_starts_with, parts_of};
use crate::state::{ArchiveEntryPerReplica, same_kind, file_or_symlink};

verus! {

/// A path at which the replicas disagree, with what is needed to resolve it
/// without looking at the file systems again.
#[derive(Debug)]
pub struct Difference {
    /// The path at which the difference occurred.
    pub path: TreePath,
    /// The roots of the synchronisation.
    pub roots: Vec<String>,
    /// The states that the archive held, if any.
    pub previous_state: Option<Vec<ArchiveEntryPerReplica>>,
    /// The current states on the replicas.
    pub current_state: Vec<ArchiveEntryPerReplica>,
}

pub struct DifferenceView {
    pub path_absolute: bool,
    pub path: Seq<Seq<char>>,
    pub roots: Seq<Seq<char>>,
    pub previous_state: Option<Seq<ArchiveEntryPerReplica>>,
    pub current_state: Seq<ArchiveEntryPerReplica>,
}

impl View for Difference {
    type V = DifferenceView;

    open spec fn view(&self) -> DifferenceView {
        DifferenceView {
            path_absolute: self.path.absolute,
            path: self.path.parts(),
            roots: parts_of(self.roots@),
            previous_state: match self.previous_state {
                Some(v) => Some(v@),
                None => None,
            },
            current_state: self.current_state@,
        }
    }
}

/// The path of `a` is the path of `b` or lies below it.
pub open spec fn within(a: DifferenceView, b: DifferenceView) -> bool {
    path_starts_with(a.path_absolute, a.path, b.path_absolute, b.path)
}

pub open spec fn diffs_view(v: Seq<Difference>) -> Seq<DifferenceView> {
    v.map_values(|d: Difference| d@)
}

/// `d` lies within a difference of `list` that does not lie within `d`.
pub open spec fn subsumed(list: Seq<DifferenceView>, d: DifferenceView) -> bool {
    exists|k: int| 0 <= k < list.len() && !within(list[k], d) && within(d, list[k])
}

/// The list after adding `d`: the differences that lie within `d` are
/// dropped, and `d` is appended unless it lies within one that remains.
pub open spec fn after_add(list: Seq<DifferenceView>, d: DifferenceView) -> Seq<DifferenceView> {
    let kept = list.filter(|o: DifferenceView| !within(o, d));
    if subsumed(list, d) {
        kept
    } else {
        kept.push(d)
    }
}

/// No difference of the list lies within another one.
pub open spec fn nested_free(list: Seq<DifferenceView>) -> bool {
    forall|i: int, j: int| 0 <= i < list.len() && 0 <= j < list.len() && i != j ==> !within(list[i], list[j])
}

/// Counts of how often the archive answered for a path during detection.
#[derive(Debug)]
pub struct DetectionStatistics {
    /// Paths whose archived states matched their current states.
    pub archive_hits: usize,
    /// Paths found identical on all replicas and added to the archive.
    pub archive_additions: usize,
}

impl DetectionStatistics {
    pub fn new() -> (r: DetectionStatistics)
        ensures
            r.archive_hits == 0,
            r.archive_additions == 0,
    {
        DetectionStatistics { archive_hits: 0, archive_additions: 0 }
    }
}

/// The result of update detection.
#[derive(Debug)]
pub struct DetectionResult {
    pub differences: Vec<Difference>,
    pub statistics: DetectionStatistics,
}

impl DetectionResult {
    pub fn new() -> (r: DetectionResult)
        ensures
            r.differences@.len() == 0,
            r.statistics.archive_hits == 0,
            r.statistics.archive_additions == 0,
    {
        DetectionResult { differences: Vec::new(), statistics: DetectionStatistics::new() }
    }

    /// Adds `difference`, keeping the list free of nested differences:
    /// those that lie within it are dropped, and it is not added when it
    /// lies within one that remains.
    pub fn add_difference(&mut self, difference: Difference)
        ensures
            diffs_view(final(self).differences@) == after_add(
                diffs_view(old(self).differences@),
                difference@,
            ),
            final(self).statistics == old(self).statistics,
    {
        let ghost list = diffs_view(self.differences@);
        let ghost d = difference@;
        let ghost keep = |o: DifferenceView| !within(o, d);
        let mut add = true;
        let mut i: usize = 0;
        let ghost mut j: int = 0;
        while i < self.differences.len()
            invariant
                0 <= j <= list.len(),
                d == difference@,
                keep == (|o: DifferenceView| !within(o, d)),
                diffs_view(self.differences@) == list.take(j).filter(keep) + list.skip(j),
                i == list.take(j).filter(keep).len(),
                add == !subsumed(list.take(j), d),
                self.statistics == old(self).statistics,
            decreases self.differences.len() - i,
        {
            let ghost cur = diffs_view(self.differences@);
            let ghost done = list.take(j).filter(keep);
            proof {
                lemma_filter_step(list.take(j + 1), keep);
                assert(list.take(j + 1).drop_last() =~= list.take(j));
                assert(list.take(j + 1).last() == list[j]);
                assert(cur[i as int] == list[j]) by {
                    assert(cur[i as int] == list.skip(j)[0]);
                }
                assert(list.skip(j + 1) =~= list.skip(j).drop_first());
            }
            if self.differences[i].path.starts_with(&difference.path) {
                let ghost before = self.differences@;
                self.differences.remove(i);
                proof {
                    assert(self.differences@ == before.remove(i as int));
                    assert(diffs_view(self.differences@) =~= cur.remove(i as int));
                    assert(!keep(list[j]));
                    assert(diffs_view(self.differences@) =~= done + list.skip(j + 1));
                    assert(subsumed(list.take(j + 1), d) == subsumed(list.take(j), d)) by {
                        lemma_subsumed_step(list, j, d);
                    }
                }
            } else {
                if difference.path.starts_with(&self.differences[i].path) {
                    add = false;
                }
                proof {
                    assert(keep(list[j]));
                    assert(diffs_view(self.differences@) =~= done.push(list[j]) + list.skip(j + 1));
                    lemma_subsumed_step(list, j, d);
                }
                i = i + 1;
            }
            proof {
                j = j + 1;
            }
        }
        proof {
            assert(j == list.len()) by {
                assert(diffs_view(self.differences@).len() == i + list.skip(j).len());
            }
            assert(list.take(j) =~= list);
            assert(list.skip(j) =~= Seq::<DifferenceView>::empty());
            assert(diffs_view(self.differences@) =~= list.filter(keep));
        }
        if add {
            let ghost before = self.differences@;
            self.differences.push(difference);
            assert(diffs_view(self.differences@) =~= diffs_view(before).push(d));
        }
    }
}

proof fn lemma_subsumed_step(list: Seq<DifferenceView>, j: int, d: DifferenceView)
    requires
        0 <= j < list.len(),
    ensures
        subsumed(list.take(j + 1), d) == (subsumed(list.take(j), d) || (!within(list[j], d)
            && within(d, list[j]))),
{
    let a = list.take(j + 1);
    let b = list.take(j);
    if subsumed(a, d) {
        let k = choose|k: int| 0 <= k < a.len() && !within(a[k], d) && within(d, a[k]);
        if k < j {
            assert(b[k] == a[k]);
        }
    }
    if subsumed(b, d) {
        let k = choose|k: int| 0 <= k < b.len() && !within(b[k], d) && within(d, b[k]);
        assert(a[k] == b[k]);
    }
    if !within(list[j], d) && within(d, list[j]) {
        assert(a[j] == list[j]);
    }
}


proof fn lemma_within_reflexive(a: DifferenceView)
    ensures
        within(a, a),
{
    assert(a.path.subrange(0, a.path.len() as int) =~= a.path);
}

proof fn lemma_within_transitive(a: DifferenceView, b: DifferenceView, c: DifferenceView)
    requires
        within(a, b),
        within(b, c),
    ensures
        within(a, c),
{
    assert(a.path.subrange(0, c.path.len() as int) =~= b.path.subrange(0, c.path.len() as int));
}

proof fn lemma_within_antisymmetric(a: DifferenceView, b: DifferenceView)
    requires
        within(a, b),
        within(b, a),
    ensures
        a.path == b.path,
{
    assert(a.path =~= a.path.subrange(0, b.path.len() as int));
}

proof fn lemma_filter_nested_free(s: Seq<DifferenceView>, keep: spec_fn(DifferenceView) -> bool)
    requires
        nested_free(s),
    ensures
        nested_free(s.filter(keep)),
    decreases s.len(),
{
    if s.len() > 0 {
        let t = s.drop_last();
        assert(nested_free(t)) by {
            assert forall|i: int, j: int|
                0 <= i < t.len() && 0 <= j < t.len() && i != j implies !within(t[i], t[j]) by {
                assert(t[i] == s[i] && t[j] == s[j]);
            }
        }
        lemma_filter_nested_free(t, keep);
        lemma_filter_step(s, keep);
        let f = t.filter(keep);
        if keep(s.last()) {
            let g = f.push(s.last());
            assert forall|i: int| 0 <= i < f.len() implies !within(f[i], s.last()) && !within(
                s.last(),
                f[i],
            ) by {
                assert(f.contains(f[i]));
                t.lemma_filter_contains_rev(keep, f[i]);
                let k = choose|k: int| 0 <= k < t.len() && t[k] == f[i];
                assert(s[k] == f[i]);
                assert(s[s.len() - 1] == s.last());
            }
            assert forall|i: int, j: int|
                0 <= i < g.len() && 0 <= j < g.len() && i != j implies !within(g[i], g[j]) by {
                if i < f.len() && j < f.len() {
                    assert(g[i] == f[i] && g[j] == f[j]);
                } else if i < f.len() {
                    assert(g[i] == f[i] && g[j] == s.last());
                } else {
                    assert(g[j] == f[j] && g[i] == s.last());
                }
            }
        }
    }
}

/// Adding a difference keeps a list free of nested differences.
pub proof fn lemma_add_keeps_nested_free(list: Seq<DifferenceView>, d: DifferenceView)
    requires
        nested_free(list),
    ensures
        nested_free(after_add(list, d)),
{
    let keep = |o: DifferenceView| !within(o, d);
    let kept = list.filter(keep);
    lemma_filter_nested_free(list, keep);
    if !subsumed(list, d) {
        let g = kept.push(d);
        assert forall|i: int| 0 <= i < kept.len() implies !within(kept[i], d) && !within(
            d,
            kept[i],
        ) by {
            list.lemma_filter_pred(keep, i);
            assert(kept.contains(kept[i]));
            list.lemma_filter_contains_rev(keep, kept[i]);
            let k = choose|k: int| 0 <= k < list.len() && list[k] == kept[i];
            if within(d, kept[i]) {
                assert(!within(list[k], d) && within(d, list[k]));
                assert(subsumed(list, d));
            }
        }
        assert forall|i: int, j: int|
            0 <= i < g.len() && 0 <= j < g.len() && i != j implies !within(g[i], g[j]) by {
            if i < kept.len() && j < kept.len() {
                assert(g[i] == kept[i] && g[j] == kept[j]);
            } else if i < kept.len() {
                assert(g[i] == kept[i] && g[j] == d);
            } else {
                assert(g[j] == kept[j] && g[i] == d);
            }
        }
    }
}

/// After adding `d`, the list holds `d` or a difference that `d` lies within.
proof fn lemma_add_covers(list: Seq<DifferenceView>, d: DifferenceView)
    ensures
        exists|k: int| 0 <= k < after_add(list, d).len() && within(d, #[trigger] after_add(list, d)[k]),
{
    let keep = |o: DifferenceView| !within(o, d);
    let r = after_add(list, d);
    if subsumed(list, d) {
        let k = choose|k: int| 0 <= k < list.len() && !within(list[k], d) && within(d, list[k]);
        list.lemma_filter_contains(keep, k);
        let m = choose|m: int| 0 <= m < r.len() && r[m] == list[k];
        assert(within(d, r[m]));
    } else {
        lemma_within_reflexive(d);
        assert(r[r.len() - 1] == d);
    }
}

/// Of two differences where `inner` lies strictly within `outer`, adding
/// both, in either order, leaves no difference at the path of `inner`, and
/// leaves `outer` or a difference that `outer` lies within.
pub proof fn lemma_nested_difference_collapses(
    list: Seq<DifferenceView>,
    outer: DifferenceView,
    inner: DifferenceView,
)
    requires
        within(inner, outer),
        inner.path != outer.path,
    ensures
        forall|k: int|
            0 <= k < after_add(after_add(list, outer), inner).len() ==> !(
            #[trigger] after_add(after_add(list, outer), inner)[k]).path_absolute == inner.path_absolute
                || after_add(after_add(list, outer), inner)[k].path != inner.path,
        exists|k: int|
            0 <= k < after_add(after_add(list, outer), inner).len() && within(
                outer,
                #[trigger] after_add(after_add(list, outer), inner)[k],
            ),
        forall|k: int|
            0 <= k < after_add(after_add(list, inner), outer).len() ==> !(
            #[trigger] after_add(after_add(list, inner), outer)[k]).path_absolute == inner.path_absolute
                || after_add(after_add(list, inner), outer)[k].path != inner.path,
        exists|k: int|
            0 <= k < after_add(after_add(list, inner), outer).len() && within(
                outer,
                #[trigger] after_add(after_add(list, inner), outer)[k],
            ),
{
    // outer first, then inner
    let l1 = after_add(list, outer);
    lemma_add_covers(list, outer);
    let k1 = choose|k: int| 0 <= k < l1.len() && within(outer, #[trigger] l1[k]);
    let z = l1[k1];
    lemma_within_transitive(inner, outer, z);
    if within(z, inner) {
        lemma_within_transitive(outer, z, inner);
        lemma_within_antisymmetric(inner, outer);
    }
    assert(subsumed(l1, inner));
    let keep_i = |o: DifferenceView| !within(o, inner);
    let l2 = after_add(l1, inner);
    assert(l2 == l1.filter(keep_i));
    assert forall|k: int| 0 <= k < l2.len() implies !(#[trigger] l2[k]).path_absolute
        == inner.path_absolute || l2[k].path != inner.path by {
        l1.lemma_filter_pred(keep_i, k);
        if l2[k].path_absolute == inner.path_absolute && l2[k].path == inner.path {
            assert(l2[k].path.subrange(0, inner.path.len() as int) =~= inner.path);
        }
    }
    l1.lemma_filter_contains(keep_i, k1);
    let m = choose|m: int| 0 <= m < l2.len() && l2[m] == z;
    assert(within(outer, l2[m]));
    // inner first, then outer
    let j1 = after_add(list, inner);
    let keep_o = |o: DifferenceView| !within(o, outer);
    let j2 = after_add(j1, outer);
    lemma_add_covers(j1, outer);
    assert forall|k: int| 0 <= k < j2.len() implies !(#[trigger] j2[k]).path_absolute
        == inner.path_absolute || j2[k].path != inner.path by {
        if j2[k].path_absolute == inner.path_absolute && j2[k].path == inner.path {
            assert(j2[k].path.subrange(0, inner.path.len() as int) =~= inner.path);
            lemma_within_transitive(j2[k], inner, outer);
            if k < j1.filter(keep_o).len() {
                j1.lemma_filter_pred(keep_o, k);
            }
        }
    }
}

/// True iff `path` falls under the ignore rules.
pub fn is_ignored(ignore: &Ignore, path: &TreePath) -> (r: bool)
    ensures
        r == ignored_by(ignore, path.absolute, path.parts()),
{
    let mut i: usize = 0;
    while i < ignore.paths.len()
        invariant
            i <= ignore.paths@.len(),
            forall|k: int| 0 <= k < i ==> !path.inside(&ignore.paths@[k]),
        decreases ignore.paths.len() - i,
    {
        if path.starts_with(&ignore.paths[i]) {
            return true;
        }
        i = i + 1;
    }
    let text = path.to_text();
    let mut j: usize = 0;
    while j < ignore.regexes.len()
        invariant
            j <= ignore.regexes@.len(),
            text@ == path.text(),
            forall|k: int| 0 <= k < ignore.paths@.len() ==> !path.inside(&ignore.paths@[k]),
            forall|k: int|
                0 <= k < j ==> !regex_matches(ignore.regexes@[k].source_text(), path.text()),
        decreases ignore.regexes.len() - j,
    {
        if ignore.regexes[j].is_match(text.as_str()) {
            return true;
        }
        j = j + 1;
    }
    false
}

/// The directories still to be searched, and whether the subdirectories of
/// a searched directory are searched too. The last one is searched first.
#[derive(Debug)]
pub struct SearchDirectories {
    pub directories: Vec<TreePath>,
    pub recurse: bool,
}

pub open spec fn paths_view(v: Seq<TreePath>) -> Seq<(bool, Seq<Seq<char>>)> {
    v.map_values(|p: TreePath| (p.absolute, p.parts()))
}

impl SearchDirectories {
    /// Searches everything below the roots.
    pub fn from_root() -> (r: SearchDirectories)
        ensures
            paths_view(r.directories@) == seq![(false, Seq::<Seq<char>>::empty())],
            r.recurse,
    {
        let mut directories: Vec<TreePath> = Vec::new();
        directories.push(TreePath::root());
        let r = SearchDirectories { directories, recurse: true };
        assert(paths_view(r.directories@) =~= seq![(false, Seq::<Seq<char>>::empty())]);
        r
    }

    pub fn new(directories: Vec<TreePath>, recurse: bool) -> (r: SearchDirectories)
        ensures
            r.directories@ == directories@,
            r.recurse == recurse,
    {
        SearchDirectories { directories, recurse }
    }
}

/// True iff the archived states and the current states are the same, slot
/// by slot, freshness tokens included.
pub fn are_archive_files_identical(
    a: &Vec<ArchiveEntryPerReplica>,
    b: &Vec<ArchiveEntryPerReplica>,
) -> (r: bool)
    ensures
        r == (a@ == b@),
{
    if a.len() != b.len() {
        return false;
    }
    let mut i: usize = 0;
    while i < a.len()
        invariant
            a.len() == b.len(),
            i <= a.len(),
            forall|k: int| 0 <= k < i ==> a@[k] == b@[k],
        decreases a.len() - i,
    {
        if a[i] != b[i] {
            return false;
        }
        i = i + 1;
    }
    assert(a@ =~= b@);
    true
}

/// Neighbouring replicas hold entries of one kind.
pub open spec fn kinds_agree(c: Seq<ArchiveEntryPerReplica>) -> bool {
    forall|i: int| 0 <= i < c.len() - 1 ==> same_kind(#[trigger] c[i], c[i + 1])
}

/// Neighbouring replicas that both hold a file or a symlink hold ones of
/// one size.
pub open spec fn sizes_agree(c: Seq<ArchiveEntryPerReplica>, sizes: Seq<u64>) -> bool {
    forall|i: int|
        0 <= i < c.len() - 1 && file_or_symlink(#[trigger] c[i]) && file_or_symlink(c[i + 1])
            ==> sizes[i] == sizes[i + 1]
}

/// Neighbouring replicas that both hold a file or a symlink hold equal
/// contents; `equal[i]` compares replica `i` with replica `i + 1`.
pub open spec fn contents_agree(c: Seq<ArchiveEntryPerReplica>, equal: Seq<bool>) -> bool {
    forall|i: int|
        0 <= i < c.len() - 1 && file_or_symlink(#[trigger] c[i]) && file_or_symlink(c[i + 1])
            ==> equal[i]
}

/// The current states show a path that is identical on all replicas.
pub open spec fn item_in_sync(
    c: Seq<ArchiveEntryPerReplica>,
    sizes: Seq<u64>,
    equal: Seq<bool>,
    compare_contents: bool,
) -> bool {
    kinds_agree(c) && sizes_agree(c, sizes) && (compare_contents ==> contents_agree(c, equal))
}

/// Whether a path is identical on all replicas, given its current states,
/// the byte size of each replica's file (`sizes[i]`, read only where replica
/// `i` holds a file or a symlink), and, when contents are compared, whether
/// replicas `i` and `i + 1` hold equal bytes (`contents_equal[i]`, read only
/// where both hold a file or a symlink).
pub fn is_item_in_sync(
    current: &Vec<ArchiveEntryPerReplica>,
    sizes: &Vec<u64>,
    contents_equal: &Vec<bool>,
    compare_file_contents: bool,
) -> (r: bool)
    requires
        sizes@.len() == current@.len(),
        compare_file_contents ==> contents_equal@.len() + 1 >= current@.len(),
    ensures
        r == item_in_sync(current@, sizes@, contents_equal@, compare_file_contents),
{
    let n = current.len();
    if n == 0 {
        return true;
    }
    let mut i: usize = 0;
    while i + 1 < n
        invariant
            n == current@.len(),
            n > 0,
            i + 1 <= n,
            forall|k: int| 0 <= k < i ==> same_kind(#[trigger] current@[k], current@[k + 1]),
        decreases n - i,
    {
        if !ArchiveEntryPerReplica::equal_ty(&current[i], &current[i + 1]) {
            return false;
        }
        i = i + 1;
    }
    i = 0;
    while i + 1 < n
        invariant
            n == current@.len(),
            sizes@.len() == n,
            n > 0,
            i + 1 <= n,
            kinds_agree(current@),
            forall|k: int|
                0 <= k < i && file_or_symlink(#[trigger] current@[k]) && file_or_symlink(
                    current@[k + 1],
                ) ==> sizes@[k] == sizes@[k + 1],
        decreases n - i,
    {
        if current[i].is_file_or_symlink() && current[i + 1].is_file_or_symlink() && sizes[i]
            != sizes[i + 1] {
            return false;
        }
        i = i + 1;
    }
    if compare_file_contents {
        i = 0;
        while i + 1 < n
            invariant
                n == current@.len(),
                contents_equal@.len() + 1 >= n,
                compare_file_contents,
                kinds_agree(current@),
                sizes_agree(current@, sizes@),
                n > 0,
                i + 1 <= n,
                forall|k: int|
                    0 <= k < i && file_or_symlink(#[trigger] current@[k]) && file_or_symlink(
                        current@[k + 1],
                    ) ==> contents_equal@[k],
            decreases n - i,
        {
            if current[i].is_file_or_symlink() && current[i + 1].is_file_or_symlink()
                && !contents_equal[i] {
                return false;
            }
            i = i + 1;
        }
    }
    true
}

/// `name` is listed by one of the replicas whose directory could be read.
pub open spec fn listed(listings: Seq<Option<Vec<String>>>, name: Seq<char>) -> bool {
    exists|i: int, j: int|
        0 <= i < listings.len() && listings[i] is Some && 0 <= j < listings[i]->Some_0@.len()
            && (#[trigger] listings[i]->Some_0@[j])@ == name
}

/// Some replica does not hold the directory as a directory.
pub open spec fn some_not_directory(listings: Seq<Option<Vec<String>>>) -> bool {
    exists|i: int| 0 <= i < listings.len() && (#[trigger] listings[i]) is None
}

/// The paths to look at in one searched directory. `listings[i]` holds the
/// names of the children of `directory` on replica `i`, or `None` where that
/// replica does not hold it as a directory. The result holds, once each, every
/// child listed by some replica that the ignore rules leave, and `directory`
/// itself when some replica does not hold it as a directory, so that the
/// mismatch at the directory comes out as a difference.
pub fn scan_directory_contents(
    directory: &TreePath,
    listings: &Vec<Option<Vec<String>>>,
    ignore: &Ignore,
) -> (r: Vec<TreePath>)
    ensures
        forall|k: int|
            0 <= k < r@.len() ==> {
                ||| (#[trigger] r@[k]).absolute == directory.absolute && r@[k].parts().len()
                    == directory.parts().len() + 1 && r@[k].parts().drop_last()
                    == directory.parts() && listed(listings@, r@[k].parts().last())
                    && !ignored_by(ignore, r@[k].absolute, r@[k].parts())
                ||| some_not_directory(listings@) && r@[k].same_path(directory)
            },
        forall|name: Seq<char>|
            listed(listings@, name) && !ignored_by(
                ignore,
                directory.absolute,
                directory.parts().push(name),
            ) ==> exists|k: int|
                0 <= k < r@.len() && (#[trigger] r@[k]).absolute == directory.absolute
                    && r@[k].parts() == directory.parts().push(name),
        some_not_directory(listings@) ==> exists|k: int|
            0 <= k < r@.len() && (#[trigger] r@[k]).same_path(directory),
        !ignored_by(ignore, directory.absolute, directory.parts()) ==> forall|k: int|
            0 <= k < r@.len() ==> !ignored_by(ignore, (#[trigger] r@[k]).absolute, r@[k].parts()),
        forall|a: int, b: int| #![trigger r@[a], r@[b]]
            0 <= a < r@.len() && 0 <= b < r@.len() && a != b ==> !r@[a].same_path(&r@[b]),
{
    let mut names: Vec<String> = Vec::new();
    let mut missing = false;
    let mut i: usize = 0;
    while i < listings.len()
        invariant
            i <= listings@.len(),
            missing == exists|x: int| 0 <= x < i && (#[trigger] listings@[x]) is None,
            forall|k: int|
                0 <= k < names@.len() ==> listed(listings@, (#[trigger] names@[k])@) && !ignored_by(
                    ignore,
                    directory.absolute,
                    directory.parts().push(names@[k]@),
                ),
            forall|x: int, y: int|
                0 <= x < i && listings@[x] is Some && 0 <= y < listings@[x]->Some_0@.len()
                    && !ignored_by(
                    ignore,
                    directory.absolute,
                    directory.parts().push((#[trigger] listings@[x]->Some_0@[y])@),
                ) ==> parts_of(names@).contains(listings@[x]->Some_0@[y]@),
            forall|a: int, b: int| #![trigger names@[a], names@[b]]
                0 <= a < names@.len() && 0 <= b < names@.len() && a != b ==> names@[a]@
                    != names@[b]@,
        decreases listings.len() - i,
    {
        match &listings[i] {
            None => {
                missing = true;
            },
            Some(list) => {
                let mut j: usize = 0;
                while j < list.len()
                    invariant
                        i < listings@.len(),
                        listings@[i as int] == Some(*list),
                        j <= list@.len(),
                        forall|k: int|
                            0 <= k < names@.len() ==> listed(listings@, (#[trigger] names@[k])@)
                                && !ignored_by(
                                ignore,
                                directory.absolute,
                                directory.parts().push(names@[k]@),
                            ),
                        forall|x: int, y: int|
                            0 <= x < i && listings@[x] is Some && 0 <= y
                                < listings@[x]->Some_0@.len() && !ignored_by(
                                ignore,
                                directory.absolute,
                                directory.parts().push((#[trigger] listings@[x]->Some_0@[y])@),
                            ) ==> parts_of(names@).contains(listings@[x]->Some_0@[y]@),
                        forall|y: int|
                            0 <= y < j && !ignored_by(
                                ignore,
                                directory.absolute,
                                directory.parts().push((#[trigger] list@[y])@),
                            ) ==> parts_of(names@).contains(list@[y]@),
                        forall|a: int, b: int| #![trigger names@[a], names@[b]]
                            0 <= a < names@.len() && 0 <= b < names@.len() && a != b
                                ==> names@[a]@ != names@[b]@,
                    decreases list.len() - j,
                {
                    let child = directory.join(list[j].as_str());
                    proof {
                        assert(listings@[i as int]->Some_0@[j as int] == list@[j as int]);
                        assert(listed(listings@, list@[j as int]@));
                    }
                    if !is_ignored(ignore, &child) {
                        let mut present = false;
                        let mut k: usize = 0;
                        while k < names.len()
                            invariant
                                k <= names@.len(),
                                j < list@.len(),
                                present ==> parts_of(names@).contains(list@[j as int]@),
                                !present ==> forall|m: int|
                                    0 <= m < k ==> (#[trigger] names@[m])@ != list@[j as int]@,
                            decreases names.len() - k,
                        {
                            if names[k] == list[j] {
                                present = true;
                                assert(parts_of(names@)[k as int] == list@[j as int]@);
                            }
                            k = k + 1;
                        }
                        if !present {
                            let ghost before = names@;
                            names.push(list[j].clone());
                            proof {
                                lemma_parts_push_contains(before, list@[j as int]);
                                assert forall|m: int| 0 <= m < names@.len() implies listed(
                                    listings@,
                                    (#[trigger] names@[m])@,
                                ) && !ignored_by(
                                    ignore,
                                    directory.absolute,
                                    directory.parts().push(names@[m]@),
                                ) by {
                                    if m < before.len() {
                                        assert(names@[m] == before[m]);
                                    }
                                }
                                assert forall|a: int, b: int| #![trigger names@[a], names@[b]]
                                    0 <= a < names@.len() && 0 <= b < names@.len() && a
                                        != b implies names@[a]@ != names@[b]@ by {
                                    if a < before.len() && b < before.len() {
                                        assert(names@[a] == before[a] && names@[b] == before[b]);
                                    } else if a < before.len() {
                                        assert(names@[a] == before[a]);
                                    } else {
                                        assert(names@[b] == before[b]);
                                    }
                                }
                            }
                        }
                    }
                    j = j + 1;
                }
            },
        }
        i = i + 1;
    }
    let mut keys: Vec<TreePath> = Vec::new();
    let mut k: usize = 0;
    while k < names.len()
        invariant
            k <= names@.len(),
            keys@.len() == k,
            forall|m: int|
                0 <= m < k ==> (#[trigger] keys@[m]).absolute == directory.absolute
                    && keys@[m].parts() == directory.parts().push(names@[m]@),
        decreases names.len() - k,
    {
        keys.push(directory.join(names[k].as_str()));
        k = k + 1;
    }
    let ghost n = keys@.len();
    if missing {
        keys.push(directory.copied());
    }
    proof {
        assert forall|m: int| 0 <= m < keys@.len() implies {
            ||| (#[trigger] keys@[m]).absolute == directory.absolute && keys@[m].parts().len()
                == directory.parts().len() + 1 && keys@[m].parts().drop_last()
                == directory.parts() && listed(listings@, keys@[m].parts().last())
                && !ignored_by(ignore, keys@[m].absolute, keys@[m].parts())
            ||| some_not_directory(listings@) && keys@[m].same_path(directory)
        } by {
            if m < n {
                assert(keys@[m].parts().drop_last() =~= directory.parts());
                assert(keys@[m].parts().last() == names@[m]@);
            }
        }
        assert forall|name: Seq<char>|
            listed(listings@, name) && !ignored_by(
                ignore,
                directory.absolute,
                directory.parts().push(name),
            ) implies exists|k: int|
            0 <= k < keys@.len() && (#[trigger] keys@[k]).absolute == directory.absolute
                && keys@[k].parts() == directory.parts().push(name) by {
            let (x, y) = choose|x: int, y: int|
                0 <= x < listings@.len() && listings@[x] is Some && 0 <= y
                    < listings@[x]->Some_0@.len() && (#[trigger] listings@[x]->Some_0@[y])@ == name;
            assert(parts_of(names@).contains(name));
            let m = choose|m: int| 0 <= m < parts_of(names@).len() && parts_of(names@)[m] == name;
            assert(keys@[m].parts() == directory.parts().push(name));
        }
        if some_not_directory(listings@) {
            assert(keys@[n as int].same_path(directory));
        }
        assert forall|a: int, b: int| #![trigger keys@[a], keys@[b]]
            0 <= a < keys@.len() && 0 <= b < keys@.len() && a != b implies !keys@[a].same_path(
            &keys@[b],
        ) by {
            if a < n && b < n {
                assert(keys@[a].parts().last() == names@[a]@);
                assert(keys@[b].parts().last() == names@[b]@);
            } else if a < n {
                assert(keys@[a].parts().len() != keys@[b].parts().len());
            } else if b < n {
                assert(keys@[a].parts().len() != keys@[b].parts().len());
            }
        }
    }
    keys
}

proof fn lemma_parts_push_contains(s: Seq<String>, x: String)
    ensures
        parts_of(s.push(x)).contains(x@),
        forall|y: Seq<char>| parts_of(s).contains(y) ==> #[trigger] parts_of(s.push(x)).contains(y),
{
    let t = parts_of(s.push(x));
    assert(t[s.len() as int] == x@);
    assert forall|y: Seq<char>| parts_of(s).contains(y) implies #[trigger] t.contains(y) by {
        let m = choose|m: int| 0 <= m < parts_of(s).len() && parts_of(s)[m] == y;
        assert(t[m] == y);
    }
}

/// Fails with `RootDoesntExist` naming the first root that does not exist;
/// `exists[i]` tells whether `roots[i]` exists.
pub fn check_all_roots_exist(roots: &Vec<String>, exists: &Vec<bool>) -> (r: Result<(), SyncError>)
    requires
        exists@.len() == roots@.len(),
    ensures
        r is Ok <==> forall|i: int| 0 <= i < exists@.len() ==> exists@[i],
        r is Err ==> exists|i: int|
            0 <= i < roots@.len() && !exists@[i] && (forall|k: int| 0 <= k < i ==> exists@[k])
                && r->Err_0 == SyncError::RootDoesntExist(roots@[i]),
{
    let mut i: usize = 0;
    while i < roots.len()
        invariant
            exists@.len() == roots@.len(),
            i <= roots@.len(),
            forall|k: int| 0 <= k < i ==> exists@[k],
        decreases roots.len() - i,
    {
        if !exists[i] {
            return Err(SyncError::RootDoesntExist(roots[i].clone()));
        }
        i = i + 1;
    }
    Ok(())
}

/// What detection makes of one path.
pub enum Verdict {
    /// The archive holds exactly the current states.
    Hit,
    /// The path is identical on all replicas; its states go into the archive.
    Addition,
    /// The replicas disagree.
    Differs,
}

/// The verdict on a path with archive key `h` and current states `current`,
/// against the archived records `m`; `in_sync` tells whether the path is
/// identical on all replicas, and is consulted only when the archive does not
/// hold `current`.
pub open spec fn verdict(
    m: Map<u64, Seq<ArchiveEntryPerReplica>>,
    h: u64,
    current: Seq<ArchiveEntryPerReplica>,
    in_sync: bool,
) -> Verdict {
    if m.contains_key(h) && m[h] == current {
        Verdict::Hit
    } else if in_sync {
        Verdict::Addition
    } else {
        Verdict::Differs
    }
}

/// The archived records after the verdict on a path.
pub open spec fn archive_after(
    m: Map<u64, Seq<ArchiveEntryPerReplica>>,
    h: u64,
    current: Seq<ArchiveEntryPerReplica>,
    in_sync: bool,
) -> Map<u64, Seq<ArchiveEntryPerReplica>> {
    if verdict(m, h, current, in_sync) is Addition {
        m.insert(h, current)
    } else {
        m
    }
}

/// The archived records after a pass over the entries `s` of a directory,
/// each given as its archive key, its current states and its in-sync answer.
pub open spec fn pass_archive(
    m: Map<u64, Seq<ArchiveEntryPerReplica>>,
    s: Seq<(u64, Seq<ArchiveEntryPerReplica>, bool)>,
) -> Map<u64, Seq<ArchiveEntryPerReplica>>
    decreases s.len(),
{
    if s.len() == 0 {
        m
    } else {
        let before = pass_archive(m, s.drop_last());
        archive_after(before, s.last().0, s.last().1, s.last().2)
    }
}

/// The verdict on the `i`-th entry of a pass over `s` that starts from `m`.
pub open spec fn pass_verdict(
    m: Map<u64, Seq<ArchiveEntryPerReplica>>,
    s: Seq<(u64, Seq<ArchiveEntryPerReplica>, bool)>,
    i: int,
) -> Verdict {
    verdict(pass_archive(m, s.take(i)), s[i].0, s[i].1, s[i].2)
}

pub open spec fn keys_distinct(s: Seq<(u64, Seq<ArchiveEntryPerReplica>, bool)>) -> bool {
    forall|i: int, j: int| 0 <= i < s.len() && 0 <= j < s.len() && i != j ==> s[i].0 != s[j].0
}

proof fn lemma_pass_elsewhere(
    m: Map<u64, Seq<ArchiveEntryPerReplica>>,
    s: Seq<(u64, Seq<ArchiveEntryPerReplica>, bool)>,
    h: u64,
)
    requires
        forall|i: int| 0 <= i < s.len() ==> (#[trigger] s[i]).0 != h,
    ensures
        pass_archive(m, s).contains_key(h) == m.contains_key(h),
        m.contains_key(h) ==> pass_archive(m, s)[h] == m[h],
    decreases s.len(),
{
    if s.len() > 0 {
        assert forall|i: int| 0 <= i < s.drop_last().len() implies (#[trigger] s.drop_last()[i]).0
            != h by {
            assert(s.drop_last()[i] == s[i]);
        }
        lemma_pass_elsewhere(m, s.drop_last(), h);
        assert(s.last() == s[s.len() - 1]);
    }
}

/// After a whole pass, the archive holds at the key of entry `i` what it
/// held right after entry `i` was looked at.
proof fn lemma_pass_at_entry(
    m: Map<u64, Seq<ArchiveEntryPerReplica>>,
    s: Seq<(u64, Seq<ArchiveEntryPerReplica>, bool)>,
    i: int,
)
    requires
        keys_distinct(s),
        0 <= i < s.len(),
    ensures
        pass_archive(m, s).contains_key(s[i].0) == pass_archive(m, s.take(i + 1)).contains_key(s[i].0),
        pass_archive(m, s.take(i + 1)).contains_key(s[i].0) ==> pass_archive(m, s)[s[i].0]
            == pass_archive(m, s.take(i + 1))[s[i].0],
    decreases s.len(),
{
    if i + 1 < s.len() {
        let t = s.drop_last();
        assert(t.take(i + 1) =~= s.take(i + 1));
        assert(t[i] == s[i]);
        assert(keys_distinct(t)) by {
            assert forall|a: int, b: int| 0 <= a < t.len() && 0 <= b < t.len() && a != b implies t[a].0 != t[b].0 by {
                assert(t[a] == s[a] && t[b] == s[b]);
            }
        }
        lemma_pass_at_entry(m, t, i);
        assert(s.last().0 != s[i].0) by {
            assert(s.last() == s[s.len() - 1]);
        }
    } else {
        assert(s.take(i + 1) =~= s);
    }
}

/// A second pass over the entries of a directory whose replicas have not
/// changed since a first pass, with distinct archive keys, makes no
/// additions, and finds exactly the entries that differed in the first pass
/// differing again; every other entry is an archive hit.
pub proof fn lemma_second_pass_over_directory(
    m: Map<u64, Seq<ArchiveEntryPerReplica>>,
    s: Seq<(u64, Seq<ArchiveEntryPerReplica>, bool)>,
)
    requires
        keys_distinct(s),
    ensures
        forall|i: int|
            0 <= i < s.len() ==> !(#[trigger] pass_verdict(pass_archive(m, s), s, i) is Addition),
        forall|i: int|
            0 <= i < s.len() ==> (#[trigger] pass_verdict(pass_archive(m, s), s, i) is Differs
                <==> pass_verdict(m, s, i) is Differs),
        forall|i: int|
            0 <= i < s.len() && !(pass_verdict(m, s, i) is Differs) ==> #[trigger] pass_verdict(
                pass_archive(m, s),
                s,
                i,
            ) is Hit,
{
    let big = pass_archive(m, s);
    assert forall|i: int| 0 <= i < s.len() implies {
        &&& !(#[trigger] pass_verdict(big, s, i) is Addition)
        &&& (pass_verdict(big, s, i) is Differs <==> pass_verdict(m, s, i) is Differs)
        &&& !(pass_verdict(m, s, i) is Differs) ==> pass_verdict(big, s, i) is Hit
    } by {
        let h = s[i].0;
        let prefix = s.take(i);
        assert forall|k: int| 0 <= k < prefix.len() implies (#[trigger] prefix[k]).0 != h by {
            assert(prefix[k] == s[k]);
        }
        lemma_pass_elsewhere(big, prefix, h);
        lemma_pass_elsewhere(m, prefix, h);
        lemma_pass_at_entry(m, s, i);
        let t = s.take(i + 1);
        assert(t.drop_last() =~= prefix);
        assert(t.last() == s[i]);
    }
}

/// A path that is identical on all replicas is never a difference.
pub proof fn lemma_identical_never_differs(
    m: Map<u64, Seq<ArchiveEntryPerReplica>>,
    h: u64,
    current: Seq<ArchiveEntryPerReplica>,
)
    ensures
        !(verdict(m, h, current, true) is Differs),
{
}

/// Once the archive records the states that a path shows, a look at the
/// path is a hit, whatever the contents comparison would say.
pub proof fn lemma_recorded_is_hit(
    m: Map<u64, Seq<ArchiveEntryPerReplica>>,
    h: u64,
    current: Seq<ArchiveEntryPerReplica>,
    in_sync: bool,
)
    ensures
        verdict(m.insert(h, current), h, current, in_sync) is Hit,
{
}

/// The state of an update detection run: the worklist of directories, and
/// the result so far. The caller lists each directory, observes its entries
/// and hands them in.
#[derive(Debug)]
pub struct UpdateDetection {
    pub search: SearchDirectories,
    pub result: DetectionResult,
    /// How many directories were taken from the worklist.
    pub directories_read: usize,
}

/// Every difference of `after_add(list, d)` is `d` or one of `list`.
proof fn lemma_after_add_members(list: Seq<DifferenceView>, d: DifferenceView)
    ensures
        forall|k: int|
            0 <= k < after_add(list, d).len() ==> #[trigger] after_add(list, d)[k] == d
                || list.contains(after_add(list, d)[k]),
{
    let keep = |o: DifferenceView| !within(o, d);
    let kept = list.filter(keep);
    assert forall|k: int| 0 <= k < kept.len() implies list.contains(#[trigger] kept[k]) by {
        assert(kept.contains(kept[k]));
        list.lemma_filter_contains_rev(keep, kept[k]);
    }
    if !subsumed(list, d) {
        assert forall|k: int| 0 <= k < after_add(list, d).len() implies #[trigger] after_add(list, d)[k]
            == d || list.contains(after_add(list, d)[k]) by {
            if k < kept.len() {
                assert(after_add(list, d)[k] == kept[k]);
            }
        }
    }
}

impl UpdateDetection {
    /// No directory of the worklist and no difference of the result falls
    /// under the ignore rules `ignore`.
    pub open spec fn respects(&self, ignore: &Ignore) -> bool {
        &&& forall|i: int|
            0 <= i < self.search.directories@.len() ==> !ignored_by(
                ignore,
                (#[trigger] self.search.directories@[i]).absolute,
                self.search.directories@[i].parts(),
            )
        &&& forall|i: int|
            0 <= i < self.result.differences@.len() ==> !ignored_by(
                ignore,
                (#[trigger] self.result.differences@[i]).path.absolute,
                self.result.differences@[i].path.parts(),
            )
    }

    /// Starts a run over `search`, leaving out the directories that the
    /// ignore rules cover; the others keep their order.
    pub fn start(search: SearchDirectories, ignore: &Ignore) -> (r: UpdateDetection)
        ensures
            paths_view(r.search.directories@) == paths_view(search.directories@).filter(
                |p: (bool, Seq<Seq<char>>)| !ignored_by(ignore, p.0, p.1),
            ),
            r.search.recurse == search.recurse,
            r.result.differences@.len() == 0,
            r.result.statistics.archive_hits == 0,
            r.result.statistics.archive_additions == 0,
            r.directories_read == 0,
            r.respects(ignore),
    {
        let ghost recurse = search.recurse;
        let mut search = search;
        let ghost list = paths_view(search.directories@);
        let ghost keep = |p: (bool, Seq<Seq<char>>)| !ignored_by(ignore, p.0, p.1);
        let mut i: usize = 0;
        let ghost mut j: int = 0;
        while i < search.directories.len()
            invariant
                0 <= j <= list.len(),
                search.recurse == recurse,
                keep == (|p: (bool, Seq<Seq<char>>)| !ignored_by(ignore, p.0, p.1)),
                paths_view(search.directories@) == list.take(j).filter(keep) + list.skip(j),
                i == list.take(j).filter(keep).len(),
            decreases search.directories.len() - i,
        {
            let ghost cur = paths_view(search.directories@);
            let ghost done = list.take(j).filter(keep);
            proof {
                lemma_filter_step(list.take(j + 1), keep);
                assert(list.take(j + 1).drop_last() =~= list.take(j));
                assert(list.take(j + 1).last() == list[j]);
                assert(cur[i as int] == list.skip(j)[0]);
                assert(list.skip(j + 1) =~= list.skip(j).drop_first());
            }
            if is_ignored(ignore, &search.directories[i]) {
                let ghost before = search.directories@;
                search.directories.remove(i);
                proof {
                    assert(search.directories@ == before.remove(i as int));
                    assert(paths_view(search.directories@) =~= cur.remove(i as int));
                    assert(paths_view(search.directories@) =~= done + list.skip(j + 1));
                }
            } else {
                proof {
                    assert(paths_view(search.directories@) =~= done.push(list[j]) + list.skip(j + 1));
                }
                i = i + 1;
            }
            proof {
                j = j + 1;
            }
        }
        proof {
            assert(j == list.len()) by {
                assert(paths_view(search.directories@).len() == i + list.skip(j).len());
            }
            assert(list.take(j) =~= list);
            assert(list.skip(j) =~= Seq::<(bool, Seq<Seq<char>>)>::empty());
            assert(paths_view(search.directories@) =~= list.filter(keep));
            assert forall|k: int| 0 <= k < search.directories@.len() implies !ignored_by(
                ignore,
                (#[trigger] search.directories@[k]).absolute,
                search.directories@[k].parts(),
            ) by {
                list.lemma_filter_pred(keep, k);
                assert(paths_view(search.directories@)[k] == (
                    search.directories@[k].absolute,
                    search.directories@[k].parts(),
                ));
            }
        }
        UpdateDetection { search, result: DetectionResult::new(), directories_read: 0 }
    }

    /// Takes the next directory from the worklist: `None` when the run is
    /// done, an `AbsolutePathProvided` error for an absolute path.
    pub fn next_directory(&mut self) -> (r: Option<Result<TreePath, SyncError>>)
        ensures
            old(self).search.directories@.len() == 0 <==> r is None,
            r is None ==> final(self).search.directories@ == old(self).search.directories@,
            r is Some ==> {
                let d = old(self).search.directories@.last();
                &&& final(self).search.directories@ == old(self).search.directories@.drop_last()
                &&& d.absolute ==> r->Some_0 is Err && r->Some_0->Err_0 == SyncError::AbsolutePathProvided(d)
                &&& !d.absolute ==> r->Some_0 is Ok && r->Some_0->Ok_0 == d
            },
            final(self).search.recurse == old(self).search.recurse,
            final(self).result == old(self).result,
            final(self).directories_read == (if r is Some && old(self).directories_read < usize::MAX {
                old(self).directories_read + 1
            } else {
                old(self).directories_read as int
            }),
            forall|ig: Ignore| #[trigger] old(self).respects(&ig) ==> final(self).respects(&ig),
    {
        match self.search.directories.pop() {
            None => None,
            Some(d) => {
                if self.directories_read < usize::MAX {
                    self.directories_read = self.directories_read + 1;
                }
                if d.is_absolute() {
                    Some(Err(SyncError::AbsolutePathProvided(d)))
                } else {
                    Some(Ok(d))
                }
            },
        }
    }

    /// Applies the verdict on one entry of a searched directory. `entries`
    /// are the archived records of that directory, `current` the states of
    /// `path` on each replica, and `in_sync` whether the path is identical on
    /// all replicas (consulted only when the archive does not hold
    /// `current`). A hit is counted; an addition is counted and recorded in
    /// `entries`; a difference is added to the result. Unless it differs, a
    /// path that is a directory on the last replica joins the worklist when
    /// the search recurses.
    pub fn analyse_entry(
        &mut self,
        roots: &Vec<String>,
        entries: &mut ArchiveEntries,
        path: TreePath,
        current: Vec<ArchiveEntryPerReplica>,
        in_sync: bool,
    )
        requires
            old(entries).wf(),
            old(self).result.statistics.archive_hits < usize::MAX,
            old(self).result.statistics.archive_additions < usize::MAX,
        ensures
            ({
                let h = hash_of(&path);
                let v = verdict(old(entries)@, h, current@, in_sync);
                let s0 = old(self).result.statistics;
                let s1 = final(self).result.statistics;
                &&& final(entries).wf()
                &&& final(entries)@ == archive_after(old(entries)@, h, current@, in_sync)
                &&& final(entries).dirty() == (old(entries).dirty() || v is Addition)
                &&& s1.archive_hits == s0.archive_hits + (if v is Hit { 1int } else { 0 })
                &&& s1.archive_additions == s0.archive_additions + (if v is Addition {
                    1int
                } else {
                    0
                })
                &&& v is Differs ==> diffs_view(final(self).result.differences@) == after_add(
                    diffs_view(old(self).result.differences@),
                    DifferenceView {
                        path_absolute: path.absolute,
                        path: path.parts(),
                        roots: parts_of(roots@),
                        previous_state: if old(entries)@.contains_key(h) {
                            Some(old(entries)@[h])
                        } else {
                            None
                        },
                        current_state: current@,
                    },
                )
                &&& !(v is Differs) ==> final(self).result.differences@ == old(
                    self,
                ).result.differences@
                &&& final(self).search.recurse == old(self).search.recurse
                &&& final(self).directories_read == old(self).directories_read
                &&& forall|ig: Ignore|
                    #[trigger] old(self).respects(&ig) && !ignored_by(&ig, path.absolute, path.parts())
                        ==> final(self).respects(&ig)
                &&& if !(v is Differs) && old(self).search.recurse && current@.len() > 0
                    && current@.last() is Directory {
                    paths_view(final(self).search.directories@) == paths_view(
                        old(self).search.directories@,
                    ).push((path.absolute, path.parts()))
                } else {
                    final(self).search.directories@ == old(self).search.directories@
                }
            }),
    {
        let ghost before_diffs = self.result.differences@;
        let ghost before_dirs = self.search.directories@;
        let ghost path_view = (path.absolute, path.parts());
        let hash = Archive::hash(&path);
        let previous = match entries.get_hashed(hash) {
            Some(prev) => Some(copy_entries(prev)),
            None => None,
        };
        let hit = match &previous {
            Some(prev) => are_archive_files_identical(prev, &current),
            None => false,
        };
        if hit {
            self.result.statistics.archive_hits = self.result.statistics.archive_hits + 1;
        } else if in_sync {
            entries.insert_hashed(hash, copy_entries(&current));
            self.result.statistics.archive_additions = self.result.statistics.archive_additions
                + 1;
        } else {
            let difference = Difference {
                path,
                roots: copy_strings(roots),
                previous_state: previous,
                current_state: current,
            };
            let ghost d = difference@;
            self.result.add_difference(difference);
            proof {
                let old_list = diffs_view(before_diffs);
                let new_list = diffs_view(self.result.differences@);
                lemma_after_add_members(old_list, d);
                assert forall|ig: Ignore|
                    #[trigger] old(self).respects(&ig) && !ignored_by(&ig, path_view.0, path_view.1)
                        implies self.respects(&ig) by {
                    assert forall|i: int| 0 <= i < self.result.differences@.len() implies !ignored_by(
                        &ig,
                        (#[trigger] self.result.differences@[i]).path.absolute,
                        self.result.differences@[i].path.parts(),
                    ) by {
                        let v = new_list[i];
                        assert(v == self.result.differences@[i]@);
                        if v != d {
                            assert(old_list.contains(v));
                            let j = choose|j: int| 0 <= j < old_list.len() && old_list[j] == v;
                            assert(old_list[j] == before_diffs[j]@);
                        }
                    }
                }
            }
            return ;
        }
        let n = current.len();
        if self.search.recurse && n > 0 && current[n - 1].is_dir() {
            let ghost before = self.search.directories@;
            self.search.directories.push(path);
            assert(paths_view(self.search.directories@) =~= paths_view(before).push(
                (path.absolute, path.parts()),
            ));
        }
        proof {
            assert forall|ig: Ignore|
                #[trigger] old(self).respects(&ig) && !ignored_by(&ig, path_view.0, path_view.1)
                    implies self.respects(&ig) by {
                assert forall|i: int| 0 <= i < self.search.directories@.len() implies !ignored_by(
                    &ig,
                    (#[trigger] self.search.directories@[i]).absolute,
                    self.search.directories@[i].parts(),
                ) by {
                    if i < before_dirs.len() {
                        assert(self.search.directories@[i] == before_dirs[i]);
                    }
                }
            }
        }
    }
}

/// A copy of a list of strings.
pub fn copy_strings(v: &Vec<String>) -> (r: Vec<String>)
    ensures
        r@ == v@,
{
    let mut r: Vec<String> = Vec::new();
    let mut i: usize = 0;
    while i < v.len()
        invariant
            i <= v.len(),
            r@ == v@.take(i as int),
        decreases v.len() - i,
    {
        r.push(v[i].clone());
        assert(r@ =~= v@.take(i + 1));
        i = i + 1;
    }
    assert(v@.take(i as int) =~= v@);
    r
}

/// Progress reporting for update detection.
pub trait ProgressCallback {
    /// Called when a directory is about to be searched, with the number of
    /// directories searched so far and the number still waiting.
    fn reading_directory(&self, path: &TreePath, checked: usize, remaining: usize);
}

/// Progress reporting that reports nothing.
pub struct EmptyProgressCallback;

impl ProgressCallback for EmptyProgressCallback {
    fn reading_directory(&self, path: &TreePath, checked: usize, remaining: usize) {
    }
}

} // verus!
