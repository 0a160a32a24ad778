//! Planning: which file goes where. The plan is made in full before anything
//! is moved or shown, so a preview and a real run speak of the same moves.

use vstd::prelude::*;
use crate::buckets::{
    bucket_size,
    bucket_start,
    lemma_bucket_bounds,
    lemma_split_covers,
    lemma_split_of_joined,
    partition,
    split_evenly,
};
use crate::collect::{lemma_sorted_listing_unique, strictly_sorted};
use crate::error::RefolderError;
use crate::naming::{folder_name, folder_name_of, parse_suffix_style, style_of, SuffixStyle};
use crate::paths::{
    file_name,
    is_folder_path,
    join_of,
    join_path,
    lemma_join_then_split,
    lemma_name_is_plain,
    name_of,
    parent_of,
};

verus! {

/// One file and the place it is to be moved to.
#[derive(Debug, PartialEq, Eq)]
pub struct PlannedMove {
    /// Where the file is now.
    pub source: String,
    /// Where it is to be.
    pub destination: String,
}

/// A planned move as a pair of paths: source, then destination.
pub type MovePair = (Seq<char>, Seq<char>);

impl View for PlannedMove {
    type V = MovePair;

    open spec fn view(&self) -> MovePair {
        (self.source@, self.destination@)
    }
}

/// One destination folder and the moves that fill it.
#[derive(Debug, PartialEq, Eq)]
pub struct BucketPlan {
    /// The path of the destination folder.
    pub folder: String,
    /// The moves into that folder, in the order of the files.
    pub moves: Vec<PlannedMove>,
}

/// A bucket's plan as plain values.
pub struct BucketPlanView {
    pub folder: Seq<char>,
    pub moves: Seq<MovePair>,
}

impl View for BucketPlan {
    type V = BucketPlanView;

    open spec fn view(&self) -> BucketPlanView {
        BucketPlanView { folder: self.folder@, moves: moves_view(self.moves@) }
    }
}

/// The paths that a list of strings holds.
pub open spec fn texts(items: Seq<String>) -> Seq<Seq<char>> {
    items.map_values(|s: String| s@)
}

/// The pairs that a list of planned moves holds.
pub open spec fn moves_view(moves: Seq<PlannedMove>) -> Seq<MovePair> {
    moves.map_values(|m: PlannedMove| m@)
}

/// A plan as plain values, bucket by bucket.
pub open spec fn plan_view(plan: Seq<BucketPlan>) -> Seq<BucketPlanView> {
    plan.map_values(|b: BucketPlan| b@)
}

/// The path of destination folder number `i` (counted from 0) under `base`.
pub open spec fn folder_path_of(base: Seq<char>, prefix: Seq<char>, style: SuffixStyle, i: nat) -> Seq<
    char,
> {
    join_of(base, folder_name_of(prefix, i + 1, style))
}

/// The move that takes `source` into `folder` under the name it has.
pub open spec fn move_into(folder: Seq<char>, source: Seq<char>) -> MovePair {
    (source, join_of(folder, name_of(source)))
}

/// The whole plan: `files` split evenly over `n` folders, folder `i` named by
/// index `i + 1`, each file keeping its name.
pub open spec fn plan_of(
    base: Seq<char>,
    files: Seq<Seq<char>>,
    n: nat,
    prefix: Seq<char>,
    style: SuffixStyle,
) -> Seq<BucketPlanView> {
    Seq::new(
        n,
        |i: int|
            {
                let folder = folder_path_of(base, prefix, style, i as nat);
                BucketPlanView {
                    folder,
                    moves: split_evenly(files, n)[i].map_values(
                        |source: Seq<char>| move_into(folder, source),
                    ),
                }
            },
    )
}

/// The moves of a plan in one list, bucket after bucket.
pub open spec fn all_moves_of(plan: Seq<BucketPlanView>) -> Seq<MovePair> {
    plan.map_values(|b: BucketPlanView| b.moves).flatten()
}

/// Whether `path` has a final component to move it under.
pub open spec fn has_name(path: Seq<char>) -> bool {
    name_of(path).len() > 0
}

/// The position of the first of `files` that has no name, or their number if
/// every one has a name.
pub open spec fn first_unnamed(files: Seq<Seq<char>>) -> int
    decreases files.len(),
{
    if files.len() == 0 {
        0
    } else if !has_name(files[0]) {
        0
    } else {
        1 + first_unnamed(files.drop_first())
    }
}

/// Before the first unnamed file every file has a name; at that position, if
/// it is one, the file has none.
pub proof fn lemma_first_unnamed(files: Seq<Seq<char>>)
    ensures
        0 <= first_unnamed(files) <= files.len(),
        forall|i: int| 0 <= i < first_unnamed(files) ==> has_name(#[trigger] files[i]),
        first_unnamed(files) < files.len() ==> !has_name(files[first_unnamed(files)]),
    decreases files.len(),
{
    if files.len() > 0 && has_name(files[0]) {
        let rest = files.drop_first();
        lemma_first_unnamed(rest);
        assert forall|i: int| 0 <= i < first_unnamed(files) implies has_name(
            #[trigger] files[i],
        ) by {
            if i > 0 {
                assert(files[i] == rest[i - 1]);
            }
        }
    }
}

/// A position without a name that has only named files before it is the
/// first unnamed one; and where every file has a name there is none.
pub proof fn lemma_first_unnamed_at(files: Seq<Seq<char>>, k: int)
    requires
        0 <= k <= files.len(),
        forall|i: int| 0 <= i < k ==> has_name(#[trigger] files[i]),
        k < files.len() ==> !has_name(files[k]),
    ensures
        first_unnamed(files) == k,
{
    lemma_first_unnamed(files);
    let found = first_unnamed(files);
    if found < k {
        assert(has_name(files[found]));
    } else if found > k {
        assert(has_name(files[k]));
    }
}

/// A planned move lands in its bucket's folder under the name that the file
/// had: taken apart again, its destination gives that folder and that name.
pub proof fn lemma_move_lands_in_folder(folder: Seq<char>, source: Seq<char>)
    requires
        has_name(source),
    ensures
        name_of(move_into(folder, source).1) == name_of(source),
        is_folder_path(folder) ==> parent_of(move_into(folder, source).1) == folder,
{
    lemma_name_is_plain(source);
    lemma_join_then_split(folder, name_of(source));
}

/// The destinations of a plan in one list, bucket after bucket: where the
/// files are once the plan is carried out.
pub open spec fn destinations_of(plan: Seq<BucketPlanView>) -> Seq<Seq<char>> {
    plan.map_values(|b: BucketPlanView| b.moves.map_values(|m: MovePair| m.1)).flatten()
}

/// Whether a plan leaves every file where it is: each move has its source as
/// its destination.
pub open spec fn in_place(plan: Seq<BucketPlanView>) -> bool {
    forall|b: int, j: int|
        0 <= b < plan.len() && 0 <= j < plan[b].moves.len() ==> (#[trigger] plan[b].moves[j]).0
            == plan[b].moves[j].1
}

/// Planning again what a plan has produced moves nothing: the destinations
/// of a plan, taken in plan order and planned with the same folder count,
/// prefix and style, all stay where they are.
pub proof fn lemma_replanning_is_in_place(
    base: Seq<char>,
    files: Seq<Seq<char>>,
    n: nat,
    prefix: Seq<char>,
    style: SuffixStyle,
)
    requires
        n >= 1,
        forall|k: int| 0 <= k < files.len() ==> has_name(#[trigger] files[k]),
    ensures
        destinations_of(plan_of(base, files, n, prefix, style)).len() == files.len(),
        in_place(
            plan_of(base, destinations_of(plan_of(base, files, n, prefix, style)), n, prefix, style),
        ),
{
    let plan = plan_of(base, files, n, prefix, style);
    let parts = plan.map_values(|b: BucketPlanView| b.moves.map_values(|m: MovePair| m.1));
    let arrived = destinations_of(plan);
    lemma_split_covers(files, n);
    assert forall|i: int| 0 <= i < parts.len() implies (#[trigger] parts[i]).len() == bucket_size(
        files.len(),
        parts.len(),
        i as nat,
    ) by {
        assert(parts[i].len() == split_evenly(files, n)[i].len());
    }
    lemma_split_of_joined(parts, files.len());
    let again = plan_of(base, arrived, n, prefix, style);
    assert forall|b: int, j: int| 0 <= b < again.len() && 0 <= j < again[b].moves.len() implies (
    #[trigger] again[b].moves[j]).0 == again[b].moves[j].1 by {
        let folder = folder_path_of(base, prefix, style, b as nat);
        let source = split_evenly(files, n)[b][j];
        lemma_bucket_bounds(files.len(), n, b as nat);
        assert(source == files[bucket_start(files.len(), n, b as nat) + j]);
        assert(has_name(source));
        assert(split_evenly(arrived, n)[b][j] == parts[b][j]);
        assert(parts[b][j] == move_into(folder, source).1);
        lemma_move_lands_in_folder(folder, source);
    }
}

/// A second run with the same arguments moves nothing, where a collection
/// keeps the order in which the first run left the files: if the
/// destinations of the plan ascend in plan order, then what a later
/// collection finds, which is those destinations sorted, is the same list,
/// and planning it leaves every file where it is. Where the destinations do
/// not ascend in plan order, a later collection finds them in another order
/// and nothing is claimed.
pub proof fn lemma_second_run_is_in_place(
    base: Seq<char>,
    files: Seq<Seq<char>>,
    n: nat,
    prefix: Seq<char>,
    style: SuffixStyle,
    found: Seq<Seq<char>>,
)
    requires
        n >= 1,
        forall|k: int| 0 <= k < files.len() ==> has_name(#[trigger] files[k]),
        strictly_sorted(destinations_of(plan_of(base, files, n, prefix, style))),
        strictly_sorted(found),
        found.to_set() == destinations_of(plan_of(base, files, n, prefix, style)).to_set(),
    ensures
        found == destinations_of(plan_of(base, files, n, prefix, style)),
        in_place(plan_of(base, found, n, prefix, style)),
{
    lemma_sorted_listing_unique(found, destinations_of(plan_of(base, files, n, prefix, style)));
    lemma_replanning_is_in_place(base, files, n, prefix, style);
}

/// What a run is to do with the collected `files`.
///
/// - With `subfolders == 0` the arguments are refused.
/// - With no file there is nothing to do: the plan has no bucket, and no
///   folder will be made.
/// - Otherwise the suffix word must be a known style, and every file must
///   have a name; the first file without one is reported.
/// - Then the plan holds `subfolders` buckets. Bucket `i` goes to the folder
///   named by index `i + 1` under `base`, and holds an even share of the
///   files, in their order, each keeping its name. A folder is planned for
///   every index, also where its share is empty.
pub fn plan_run(
    base: &str,
    files: Vec<String>,
    subfolders: usize,
    prefix: &str,
    suffix: &str,
) -> (res: Result<Vec<BucketPlan>, RefolderError>)
    ensures
        subfolders == 0 ==> res == Err::<Vec<BucketPlan>, RefolderError>(
            RefolderError::ZeroSubfolders,
        ),
        subfolders > 0 && files.len() == 0 ==> (res matches Ok(plan) && plan.len() == 0),
        subfolders > 0 && files.len() > 0 ==> match style_of(suffix@) {
            None => res matches Err(RefolderError::UnknownSuffix { style }) && style@ == suffix@,
            Some(style) => {
                let k = first_unnamed(texts(files@));
                if k < files.len() {
                    res matches Err(RefolderError::InvalidFileName { path }) && path@ == files@[k]@
                } else {
                    res matches Ok(plan) && plan_view(plan@) == plan_of(
                        base@,
                        texts(files@),
                        subfolders as nat,
                        prefix@,
                        style,
                    )
                }
            },
        },
{
    if subfolders == 0 {
        return Err(RefolderError::ZeroSubfolders);
    }
    if files.len() == 0 {
        return Ok(Vec::new());
    }
    let style = match parse_suffix_style(suffix) {
        Ok(style) => style,
        Err(e) => {
            return Err(e);
        },
    };
    let ghost paths = texts(files@);
    let ghost total = files.len() as nat;
    let ghost n = subfolders as nat;
    let buckets = partition(files, subfolders);
    let mut plan: Vec<BucketPlan> = Vec::new();
    let mut i: usize = 0;
    proof {
        lemma_bucket_bounds(total, n, 0);
        assert forall|b: int| 0 <= b < subfolders implies texts((#[trigger] buckets[b])@)
            == split_evenly(paths, n)[b] by {
            lemma_bucket_bounds(total, n, b as nat);
            assert(texts(split_evenly(files@, n)[b]) =~= split_evenly(paths, n)[b]);
        }
    }
    while i < subfolders
        invariant
            n == subfolders,
            n >= 1,
            total > 0,
            total == files.len(),
            paths == texts(files@),
            style_of(suffix@) == Some(style),
            i <= subfolders,
            paths.len() == total,
            buckets.len() == subfolders,
            forall|b: int|
                0 <= b < subfolders ==> texts((#[trigger] buckets[b])@) == split_evenly(paths, n)[b],
            forall|k: int|
                0 <= k < bucket_start(total, n, i as nat) ==> has_name(#[trigger] paths[k]),
            plan.len() == i,
            forall|b: int|
                0 <= b < i ==> (#[trigger] plan[b])@ == plan_of(base@, paths, n, prefix@, style)[b],
        decreases subfolders - i,
    {
        proof {
            lemma_bucket_bounds(total, n, i as nat);
        }
        let label = folder_name(prefix, i + 1, style);
        let folder = join_path(base, label.as_str());
        let bucket = &buckets[i];
        let ghost shares = split_evenly(paths, n);
        let ghost start = bucket_start(total, n, i as nat) as int;
        assert(texts(bucket@) == shares[i as int]);
        assert(bucket@.len() == shares[i as int].len());
        let mut moves: Vec<PlannedMove> = Vec::new();
        let mut j: usize = 0;
        while j < bucket.len()
            invariant
                j <= bucket.len(),
                0 <= i < n,
                n == subfolders,
                total > 0,
                total == files.len(),
                paths == texts(files@),
                style_of(suffix@) == Some(style),
                shares == split_evenly(paths, n),
                texts(bucket@) == shares[i as int],
                paths.len() == total,
                start == bucket_start(total, n, i as nat),
                start + bucket.len() == bucket_start(total, n, (i + 1) as nat),
                start + bucket.len() <= total,
                forall|k: int| 0 <= k < start + j ==> has_name(#[trigger] paths[k]),
                moves.len() == j,
                forall|m: int|
                    0 <= m < j ==> (#[trigger] moves[m])@ == move_into(folder@, shares[i as int][m]),
            decreases bucket.len() - j,
        {
            let source = &bucket[j];
            assert(source@ == texts(bucket@)[j as int]);
            assert(shares[i as int][j as int] == paths[start + j]);
            match file_name(source.as_str()) {
                None => {
                    proof {
                        lemma_first_unnamed_at(paths, start + j);
                    }
                    return Err(RefolderError::InvalidFileName { path: source.clone() });
                },
                Some(name) => {
                    let destination = join_path(folder.as_str(), name.as_str());
                    moves.push(PlannedMove { source: source.clone(), destination });
                },
            }
            j += 1;
        }
        assert(moves_view(moves@) =~= shares[i as int].map_values(
            |source: Seq<char>| move_into(folder@, source),
        ));
        plan.push(BucketPlan { folder, moves });
        i += 1;
    }
    proof {
        lemma_bucket_bounds(total, n, (n - 1) as nat);
        lemma_first_unnamed_at(paths, total as int);
        assert(plan_view(plan@) =~= plan_of(base@, paths, n, prefix@, style));
    }
    Ok(plan)
}

/// The moves of a plan in one list, bucket after bucket: what a preview
/// shows and what a real run carries out.
pub fn all_moves(plan: &Vec<BucketPlan>) -> (moves: Vec<PlannedMove>)
    ensures
        moves_view(moves@) == all_moves_of(plan_view(plan@)),
{
    let ghost lists = plan_view(plan@).map_values(|b: BucketPlanView| b.moves);
    let mut moves: Vec<PlannedMove> = Vec::new();
    let mut b: usize = 0;
    assert(lists.take(0).flatten() =~= Seq::<MovePair>::empty());
    while b < plan.len()
        invariant
            b <= plan.len(),
            lists == plan_view(plan@).map_values(|b: BucketPlanView| b.moves),
            moves_view(moves@) == lists.take(b as int).flatten(),
        decreases plan.len() - b,
    {
        let bucket = &plan[b];
        let ghost before = moves_view(moves@);
        let mut i: usize = 0;
        assert(lists[b as int] == moves_view(bucket.moves@));
        while i < bucket.moves.len()
            invariant
                i <= bucket.moves.len(),
                moves_view(moves@) == before + moves_view(bucket.moves@).take(i as int),
            decreases bucket.moves.len() - i,
        {
            let planned = &bucket.moves[i];
            let ghost so_far = moves_view(moves@);
            moves.push(
                PlannedMove {
                    source: planned.source.clone(),
                    destination: planned.destination.clone(),
                },
            );
            i += 1;
            assert(moves_view(moves@) =~= so_far.push(planned@));
            assert(moves_view(bucket.moves@).take(i as int) =~= moves_view(bucket.moves@).take(
                i - 1,
            ).push(planned@));
        }
        assert(moves_view(bucket.moves@).take(bucket.moves.len() as int) =~= moves_view(
            bucket.moves@,
        ));
        proof {
            lists.take(b as int).lemma_flatten_push(lists[b as int]);
            assert(lists.take(b + 1) =~= lists.take(b as int).push(lists[b as int]));
        }
        b += 1;
    }
    assert(lists.take(plan.len() as int) =~= lists);
    moves
}

} // verus!
