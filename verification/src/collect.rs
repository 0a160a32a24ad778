//! The collector's decisions: whether the base can be searched at all, which
//! folders are searched again, and how the files that were found become one
//! sorted list without repeats.

use vstd::prelude::*;
use crate::error::RefolderError;
use crate::plan::texts;
use crate::text::{chars_of, lemma_text_order, str_equal, str_less, text_less};

verus! {

/// Whether `paths` ascends strictly in the order of paths.
pub open spec fn strictly_sorted(paths: Seq<Seq<char>>) -> bool {
    forall|i: int, j: int| 0 <= i < j < paths.len() ==> text_less(#[trigger] paths[i], #[trigger] paths[j])
}

/// A strictly sorted list holds no path twice.
pub proof fn lemma_sorted_has_no_repeats(paths: Seq<Seq<char>>)
    requires
        strictly_sorted(paths),
    ensures
        paths.no_duplicates(),
{
    assert forall|i: int, j: int| 0 <= i < paths.len() && 0 <= j < paths.len() && i != j implies paths[i]
        != paths[j] by {
        lemma_text_order(paths[i], paths[j], paths[i]);
        if i < j {
            assert(text_less(paths[i], paths[j]));
        } else {
            assert(text_less(paths[j], paths[i]));
        }
    }
}

/// Putting `x` into a list adds `x` to the set of what the list holds.
pub proof fn lemma_insert_to_set<A>(s: Seq<A>, p: int, x: A)
    requires
        0 <= p <= s.len(),
    ensures
        s.insert(p, x).to_set() == s.to_set().insert(x),
{
    let t = s.insert(p, x);
    assert forall|a: A| t.to_set().contains(a) <==> s.to_set().insert(x).contains(a) by {
        if t.to_set().contains(a) {
            let i = choose|i: int| 0 <= i < t.len() && t[i] == a;
            if i < p {
                assert(s[i] == a);
            } else if i > p {
                assert(s[i - 1] == a);
            }
        }
        if s.to_set().insert(x).contains(a) {
            if a == x {
                assert(t[p] == a);
            } else {
                let i = choose|i: int| 0 <= i < s.len() && s[i] == a;
                if i < p {
                    assert(t[i] == a);
                } else {
                    assert(t[i + 1] == a);
                }
            }
        }
    }
    assert(t.to_set() =~= s.to_set().insert(x));
}

/// A list that is one item longer holds that item besides what it held.
pub proof fn lemma_take_next_to_set<A>(s: Seq<A>, i: int)
    requires
        0 <= i < s.len(),
    ensures
        s.take(i + 1).to_set() == s.take(i).to_set().insert(s[i]),
{
    assert(s.take(i + 1) =~= s.take(i).insert(i, s[i]));
    lemma_insert_to_set(s.take(i), i, s[i]);
}

/// Two strictly sorted lists that hold the same paths are the same list: the
/// order of a collection is decided by what was found, not by how.
pub proof fn lemma_sorted_listing_unique(a: Seq<Seq<char>>, b: Seq<Seq<char>>)
    requires
        strictly_sorted(a),
        strictly_sorted(b),
        a.to_set() == b.to_set(),
    ensures
        a == b,
    decreases a.len(),
{
    if a.len() == 0 {
        if b.len() > 0 {
            assert(b.to_set().contains(b[0]));
            assert(a.to_set().contains(b[0]));
        }
        assert(a =~= b);
    } else {
        assert(a.to_set().contains(a[0]));
        assert(b.to_set().contains(a[0]));
        let k = choose|k: int| 0 <= k < b.len() && b[k] == a[0];
        assert(b.to_set().contains(b[0]));
        assert(a.to_set().contains(b[0]));
        let m = choose|m: int| 0 <= m < a.len() && a[m] == b[0];
        lemma_text_order(a[0], b[0], a[0]);
        if k > 0 {
            assert(text_less(b[0], b[k]));
        }
        if m > 0 {
            assert(text_less(a[0], a[m]));
        }
        assert(a[0] == b[0]);
        let ra = a.drop_first();
        let rb = b.drop_first();
        assert forall|x: Seq<char>| ra.to_set().contains(x) <==> rb.to_set().contains(x) by {
            lemma_text_order(a[0], x, a[0]);
            if ra.to_set().contains(x) {
                let i = choose|i: int| 0 <= i < ra.len() && ra[i] == x;
                assert(a[i + 1] == x);
                assert(text_less(a[0], a[i + 1]));
                assert(a.to_set().contains(x));
                assert(b.to_set().contains(x));
                let j = choose|j: int| 0 <= j < b.len() && b[j] == x;
                assert(j > 0);
                assert(rb[j - 1] == x);
            }
            if rb.to_set().contains(x) {
                let i = choose|i: int| 0 <= i < rb.len() && rb[i] == x;
                assert(b[i + 1] == x);
                assert(text_less(b[0], b[i + 1]));
                assert(b.to_set().contains(x));
                assert(a.to_set().contains(x));
                let j = choose|j: int| 0 <= j < a.len() && a[j] == x;
                assert(j > 0);
                assert(ra[j - 1] == x);
            }
        }
        assert(ra.to_set() =~= rb.to_set());
        assert(strictly_sorted(ra)) by {
            assert forall|i: int, j: int| 0 <= i < j < ra.len() implies text_less(
                #[trigger] ra[i],
                #[trigger] ra[j],
            ) by {
                assert(text_less(a[i + 1], a[j + 1]));
            }
        }
        assert(strictly_sorted(rb)) by {
            assert forall|i: int, j: int| 0 <= i < j < rb.len() implies text_less(
                #[trigger] rb[i],
                #[trigger] rb[j],
            ) by {
                assert(text_less(b[i + 1], b[j + 1]));
            }
        }
        lemma_sorted_listing_unique(ra, rb);
        assert(a =~= seq![a[0]] + ra);
        assert(b =~= seq![b[0]] + rb);
    }
}

/// Whether `paths` never descends in the order of paths; equal neighbours
/// are allowed.
pub open spec fn ascending(paths: Seq<Seq<char>>) -> bool {
    forall|i: int, j: int| 0 <= i < j < paths.len() ==> !text_less(#[trigger] paths[j], #[trigger] paths[i])
}

/// A strictly sorted list is ascending.
pub proof fn lemma_sorted_is_ascending(paths: Seq<Seq<char>>)
    requires
        strictly_sorted(paths),
    ensures
        ascending(paths),
{
    assert forall|i: int, j: int| 0 <= i < j < paths.len() implies !text_less(
        #[trigger] paths[j],
        #[trigger] paths[i],
    ) by {
        assert(text_less(paths[i], paths[j]));
        lemma_text_order(paths[i], paths[j], paths[i]);
    }
}

/// Two ascending lists that hold the same paths equally often are the same
/// list.
pub proof fn lemma_ascending_listing_unique(a: Seq<Seq<char>>, b: Seq<Seq<char>>)
    requires
        ascending(a),
        ascending(b),
        a.to_multiset() == b.to_multiset(),
    ensures
        a == b,
    decreases a.len(),
{
    vstd::seq_lib::to_multiset_len(a);
    vstd::seq_lib::to_multiset_len(b);
    if a.len() == 0 {
        assert(a =~= b);
    } else {
        let x = a.last();
        let y = b.last();
        vstd::seq_lib::to_multiset_contains(a, x);
        vstd::seq_lib::to_multiset_contains(b, x);
        vstd::seq_lib::to_multiset_contains(a, y);
        vstd::seq_lib::to_multiset_contains(b, y);
        assert(a[a.len() - 1] == x);
        assert(b[b.len() - 1] == y);
        assert(a.contains(x));
        assert(b.contains(y));
        let k = choose|k: int| 0 <= k < b.len() && b[k] == x;
        let m = choose|m: int| 0 <= m < a.len() && a[m] == y;
        lemma_text_order(x, y, x);
        if k < b.len() - 1 {
            assert(!text_less(b[b.len() - 1], b[k]));
        }
        if m < a.len() - 1 {
            assert(!text_less(a[a.len() - 1], a[m]));
        }
        assert(x == y);
        vstd::seq_lib::to_multiset_remove(a, a.len() - 1);
        vstd::seq_lib::to_multiset_remove(b, b.len() - 1);
        assert(a.remove(a.len() - 1) =~= a.drop_last());
        assert(b.remove(b.len() - 1) =~= b.drop_last());
        assert(ascending(a.drop_last())) by {
            assert forall|i: int, j: int| 0 <= i < j < a.drop_last().len() implies !text_less(
                #[trigger] a.drop_last()[j],
                #[trigger] a.drop_last()[i],
            ) by {
                assert(!text_less(a[j], a[i]));
            }
        }
        assert(ascending(b.drop_last())) by {
            assert forall|i: int, j: int| 0 <= i < j < b.drop_last().len() implies !text_less(
                #[trigger] b.drop_last()[j],
                #[trigger] b.drop_last()[i],
            ) by {
                assert(!text_less(b[j], b[i]));
            }
        }
        lemma_ascending_listing_unique(a.drop_last(), b.drop_last());
        assert(a =~= a.drop_last().push(x));
        assert(b =~= b.drop_last().push(y));
    }
}

/// The first position of the ascending list `sorted` whose path does not
/// come before `item`: every path before that position sorts before `item`,
/// and none from there on does.
pub(crate) fn lower_bound(sorted: &Vec<String>, item: &str) -> (at: usize)
    requires
        ascending(texts(sorted@)),
    ensures
        at <= sorted.len(),
        forall|k: int| 0 <= k < at ==> text_less(#[trigger] texts(sorted@)[k], item@),
        forall|k: int| at <= k < sorted.len() ==> !text_less(#[trigger] texts(sorted@)[k], item@),
{
    let ghost list = texts(sorted@);
    let mut lo: usize = 0;
    let mut hi: usize = sorted.len();
    while lo < hi
        invariant
            0 <= lo <= hi <= sorted.len(),
            list == texts(sorted@),
            ascending(list),
            forall|k: int| 0 <= k < lo ==> text_less(#[trigger] list[k], item@),
            forall|k: int| hi <= k < list.len() ==> !text_less(#[trigger] list[k], item@),
        decreases hi - lo,
    {
        let mid = lo + (hi - lo) / 2;
        if str_less(sorted[mid].as_str(), item) {
            assert forall|k: int| 0 <= k < mid + 1 implies text_less(#[trigger] list[k], item@) by {
                if k < mid {
                    assert(!text_less(list[mid as int], list[k]));
                    lemma_text_order(list[k], list[mid as int], item@);
                }
            }
            lo = mid + 1;
        } else {
            assert forall|k: int| mid <= k < list.len() implies !text_less(
                #[trigger] list[k],
                item@,
            ) by {
                if k > mid {
                    assert(!text_less(list[k], list[mid as int]));
                    lemma_text_order(list[mid as int], list[k], item@);
                    lemma_text_order(list[k], item@, list[mid as int]);
                }
            }
            hi = mid;
        }
    }
    lo
}

/// A path put into a strictly sorted list at its lower bound, where the list
/// does not hold it yet, leaves the list strictly sorted; and a list that
/// does not hold a path at its lower bound does not hold it at all.
pub proof fn lemma_insert_keeps_sorted(before: Seq<Seq<char>>, at: int, placed: Seq<char>)
    requires
        strictly_sorted(before),
        0 <= at <= before.len(),
        forall|k: int| 0 <= k < at ==> text_less(#[trigger] before[k], placed),
        forall|k: int| at <= k < before.len() ==> !text_less(#[trigger] before[k], placed),
        at < before.len() ==> before[at] != placed,
    ensures
        strictly_sorted(before.insert(at, placed)),
        !before.to_set().contains(placed),
{
    let after = before.insert(at, placed);
    assert forall|k: int| at <= k < before.len() implies text_less(placed, #[trigger] before[k]) by {
        lemma_text_order(before[at], placed, placed);
        if k > at {
            assert(text_less(before[at], before[k]));
            lemma_text_order(placed, before[at], before[k]);
        }
    }
    assert forall|i: int, j: int| 0 <= i < j < after.len() implies text_less(
        #[trigger] after[i],
        #[trigger] after[j],
    ) by {
        if j < at {
            assert(text_less(before[i], before[j]));
        } else if j == at {
            assert(text_less(before[i], placed));
        } else if i == at {
            assert(text_less(placed, before[j - 1]));
        } else if i < at {
            assert(text_less(before[i], before[j - 1]));
        } else {
            assert(text_less(before[i - 1], before[j - 1]));
        }
    }
    if before.to_set().contains(placed) {
        let k = choose|k: int| 0 <= k < before.len() && before[k] == placed;
        lemma_text_order(placed, placed, placed);
        if k < at {
            assert(text_less(before[k], placed));
        } else {
            assert(text_less(placed, before[k]));
        }
    }
}

/// Puts `item` into the sorted list at its place, unless the list holds that
/// path already.
pub(crate) fn insert_sorted(sorted: &mut Vec<String>, item: String)
    requires
        strictly_sorted(texts(old(sorted)@)),
    ensures
        strictly_sorted(texts(final(sorted)@)),
        texts(final(sorted)@).to_set() == texts(old(sorted)@).to_set().insert(item@),
{
    let ghost before = texts(sorted@);
    proof {
        lemma_sorted_is_ascending(before);
    }
    let at = lower_bound(sorted, item.as_str());
    if at < sorted.len() && str_equal(sorted[at].as_str(), item.as_str()) {
        proof {
            assert(before[at as int] == item@);
            assert(before.to_set().contains(item@));
            assert(before.to_set().insert(item@) =~= before.to_set());
        }
        return ;
    }
    let ghost placed = item@;
    sorted.insert(at, item);
    proof {
        assert(texts(sorted@) =~= before.insert(at as int, placed));
        lemma_insert_to_set(before, at as int, placed);
        lemma_insert_keeps_sorted(before, at as int, placed);
    }
}

/// Puts `item` into the ascending list at a place that keeps it ascending;
/// a path that the list holds already is held once more.
pub(crate) fn insert_ascending(sorted: &mut Vec<String>, item: String)
    requires
        ascending(texts(old(sorted)@)),
    ensures
        ascending(texts(final(sorted)@)),
        texts(final(sorted)@).to_multiset() == texts(old(sorted)@).to_multiset().insert(item@),
{
    let ghost before = texts(sorted@);
    let at = lower_bound(sorted, item.as_str());
    let ghost placed = item@;
    sorted.insert(at, item);
    proof {
        let after = texts(sorted@);
        assert(after =~= before.insert(at as int, placed));
        vstd::seq_lib::to_multiset_insert(before, at as int, placed);
        assert forall|i: int, j: int| 0 <= i < j < after.len() implies !text_less(
            #[trigger] after[j],
            #[trigger] after[i],
        ) by {
            if j < at {
                assert(!text_less(before[j], before[i]));
            } else if j == at {
                assert(text_less(before[i], placed));
                lemma_text_order(before[i], placed, before[i]);
            } else if i == at {
                assert(!text_less(before[j - 1], placed));
            } else if i < at {
                assert(!text_less(before[j - 1], before[i]));
            } else {
                assert(!text_less(before[j - 1], before[i - 1]));
            }
        }
    }
}

/// The files that the walk of the base folder found and those that the
/// searches of earlier destination folders found, as one list: sorted by
/// path, each path once, whichever search found it and however often.
pub fn merge_collected(primary: &Vec<String>, rescanned: &Vec<String>) -> (files: Vec<String>)
    ensures
        strictly_sorted(texts(files@)),
        texts(files@).no_duplicates(),
        texts(files@).to_set() == texts(primary@).to_set().union(texts(rescanned@).to_set()),
{
    let mut files: Vec<String> = Vec::new();
    let mut i: usize = 0;
    assert(texts(primary@).take(0).to_set() =~= Set::<Seq<char>>::empty());
    assert(texts(files@).to_set() =~= Set::<Seq<char>>::empty());
    while i < primary.len()
        invariant
            i <= primary.len(),
            strictly_sorted(texts(files@)),
            texts(files@).to_set() == texts(primary@).take(i as int).to_set(),
        decreases primary.len() - i,
    {
        proof {
            lemma_take_next_to_set(texts(primary@), i as int);
        }
        insert_sorted(&mut files, primary[i].clone());
        i += 1;
    }
    assert(texts(primary@).take(primary.len() as int) =~= texts(primary@));
    let mut j: usize = 0;
    assert(texts(rescanned@).take(0).to_set() =~= Set::<Seq<char>>::empty());
    assert(texts(files@).to_set() =~= texts(primary@).to_set().union(
        texts(rescanned@).take(0).to_set(),
    ));
    while j < rescanned.len()
        invariant
            j <= rescanned.len(),
            strictly_sorted(texts(files@)),
            texts(files@).to_set() == texts(primary@).to_set().union(
                texts(rescanned@).take(j as int).to_set(),
            ),
        decreases rescanned.len() - j,
    {
        proof {
            lemma_take_next_to_set(texts(rescanned@), j as int);
        }
        insert_sorted(&mut files, rescanned[j].clone());
        j += 1;
        assert(texts(files@).to_set() =~= texts(primary@).to_set().union(
            texts(rescanned@).take(j as int).to_set(),
        ));
    }
    assert(texts(rescanned@).take(rescanned.len() as int) =~= texts(rescanned@));
    proof {
        lemma_sorted_has_no_repeats(texts(files@));
    }
    files
}

/// Whether the base of a run can be searched, given what was found at
/// `path`: it must exist and be a directory.
pub fn check_base(path: &str, exists: bool, is_directory: bool) -> (res: Result<(), RefolderError>)
    ensures
        exists && is_directory ==> res is Ok,
        !exists ==> (res matches Err(RefolderError::PathMissing { path: named }) && named@ == path@),
        exists && !is_directory ==> (res matches Err(RefolderError::NotADirectory { path: named })
            && named@ == path@),
{
    if !exists {
        Err(RefolderError::PathMissing { path: String::from_str(path) })
    } else if !is_directory {
        Err(RefolderError::NotADirectory { path: String::from_str(path) })
    } else {
        Ok(())
    }
}

/// The canonical path of `given` as text, from what resolving it gave: the
/// text of the canonical path; or nothing, where that path exists and
/// cannot be written as text; or the reason for which resolving failed.
pub fn resolved_path(given: &str, resolved: Result<Option<String>, String>) -> (res: Result<
    String,
    RefolderError,
>)
    ensures
        match resolved {
            Ok(Some(text)) => res matches Ok(path) && path@ == text@,
            Ok(None) => res matches Err(RefolderError::NotText { path }) && path@ == given@,
            Err(reason) => res matches Err(RefolderError::Unresolvable { path, cause }) && path@
                == given@ && cause@ == reason@,
        },
{
    match resolved {
        Ok(Some(text)) => Ok(text),
        Ok(None) => Err(RefolderError::NotText { path: String::from_str(given) }),
        Err(reason) => Err(
            RefolderError::Unresolvable { path: String::from_str(given), cause: reason },
        ),
    }
}

/// Whether the folder called `name` counts as a destination folder of an
/// earlier run with this `prefix`, whose files are collected again: its name
/// begins with the prefix.
pub fn is_redo_folder(name: &str, prefix: &str) -> (redo: bool)
    ensures
        redo == prefix@.is_prefix_of(name@),
{
    let whole = chars_of(name);
    let head = chars_of(prefix);
    if head.len() > whole.len() {
        return false;
    }
    let mut i: usize = 0;
    while i < head.len()
        invariant
            i <= head.len() <= whole.len(),
            head@ == prefix@,
            whole@ == name@,
            head@.take(i as int) == whole@.take(i as int),
        decreases head.len() - i,
    {
        if head[i] != whole[i] {
            assert(whole@.subrange(0, head.len() as int)[i as int] != head@[i as int]);
            return false;
        }
        i += 1;
        assert(head@.take(i as int) =~= head@.take(i - 1).push(head@[i - 1]));
        assert(whole@.take(i as int) =~= whole@.take(i - 1).push(whole@[i - 1]));
    }
    assert(head@ =~= head@.take(head.len() as int));
    assert(whole@.subrange(0, head.len() as int) =~= whole@.take(head.len() as int));
    true
}

} // verus!
