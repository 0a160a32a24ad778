//! The dry-run reporter: the planned moves as a tree of destination folders
//! and the files that would arrive in each, with a summary. Nothing here
//! touches the disk; paths are only taken apart as text.

use vstd::prelude::*;
use crate::collect::{
    ascending,
    insert_ascending,
    lemma_ascending_listing_unique,
    lemma_insert_keeps_sorted,
    lemma_sorted_listing_unique,
    lemma_insert_to_set,
    lemma_sorted_has_no_repeats,
    strictly_sorted,
};
use crate::naming::{decimal_of, push_decimal};
use crate::paths::{folder_label, label_of, name_of, parent_of, split_path};
use crate::plan::{moves_view, texts, MovePair, PlannedMove};
use crate::text::{lemma_text_order, push_char, str_equal, str_less, text_less};

verus! {

/// One destination folder of the preview and the names of the files that
/// would arrive in it.
#[derive(Debug, PartialEq, Eq)]
pub struct FolderGroup {
    /// The path of the folder.
    pub folder: String,
    /// The names of the files, ascending; a name is listed as often as it is
    /// planned.
    pub files: Vec<String>,
}

/// A folder group as plain values.
pub struct FolderGroupView {
    pub folder: Seq<char>,
    pub files: Seq<Seq<char>>,
}

impl View for FolderGroup {
    type V = FolderGroupView;

    open spec fn view(&self) -> FolderGroupView {
        FolderGroupView { folder: self.folder@, files: texts(self.files@) }
    }
}

/// A list of folder groups as plain values.
pub open spec fn groups_view(groups: Seq<FolderGroup>) -> Seq<FolderGroupView> {
    groups.map_values(|g: FolderGroup| g@)
}

/// The folders of the groups, in their order.
pub open spec fn folders_of(groups: Seq<FolderGroupView>) -> Seq<Seq<char>> {
    groups.map_values(|g: FolderGroupView| g.folder)
}

/// The folders that the destinations of `moves` lie in.
pub open spec fn destination_folders(moves: Seq<MovePair>) -> Set<Seq<char>> {
    moves.map_values(|m: MovePair| parent_of(m.1)).to_set()
}

/// The names under which `moves` put files into `folder`, in plan order.
pub open spec fn names_into(moves: Seq<MovePair>, folder: Seq<char>) -> Seq<Seq<char>>
    decreases moves.len(),
{
    if moves.len() == 0 {
        Seq::empty()
    } else if parent_of(moves.last().1) == folder {
        names_into(moves.drop_last(), folder).push(name_of(moves.last().1))
    } else {
        names_into(moves.drop_last(), folder)
    }
}

/// How many files the groups list in all.
pub open spec fn total_files(groups: Seq<FolderGroupView>) -> nat
    decreases groups.len(),
{
    if groups.len() == 0 {
        0
    } else {
        total_files(groups.drop_last()) + groups.last().files.len()
    }
}

/// Whether `groups` is the grouping of `moves` by destination folder: one
/// group for each folder that a destination lies in, the folders in strictly
/// ascending order; in each group the names of the files that go there,
/// ascending, each as often as it is planned.
pub open spec fn is_grouping(moves: Seq<MovePair>, groups: Seq<FolderGroupView>) -> bool {
    &&& strictly_sorted(folders_of(groups))
    &&& folders_of(groups).to_set() == destination_folders(moves)
    &&& forall|g: int|
        0 <= g < groups.len() ==> ascending((#[trigger] groups[g]).files)
            && groups[g].files.to_multiset() == names_into(moves, groups[g].folder).to_multiset()
}

/// The grouping of `moves` by destination folder.
pub open spec fn grouping_of(moves: Seq<MovePair>) -> Seq<FolderGroupView> {
    choose|groups: Seq<FolderGroupView>| is_grouping(moves, groups)
}

/// Moves have one grouping only: which folders there are, in which order,
/// and which names stand under each, in which order, is decided by the moves.
pub proof fn lemma_grouping_unique(
    moves: Seq<MovePair>,
    first: Seq<FolderGroupView>,
    second: Seq<FolderGroupView>,
)
    requires
        is_grouping(moves, first),
        is_grouping(moves, second),
    ensures
        first == second,
{
    lemma_sorted_listing_unique(folders_of(first), folders_of(second));
    assert(first.len() == folders_of(first).len());
    assert(second.len() == folders_of(second).len());
    assert forall|g: int| 0 <= g < first.len() implies first[g] == second[g] by {
        assert(folders_of(first)[g] == first[g].folder);
        assert(folders_of(second)[g] == second[g].folder);
        lemma_ascending_listing_unique(first[g].files, second[g].files);
    }
    assert(first =~= second);
}

/// A grouping of `moves` is the grouping of `moves`.
pub proof fn lemma_grouping_is_chosen(moves: Seq<MovePair>, groups: Seq<FolderGroupView>)
    requires
        is_grouping(moves, groups),
    ensures
        groups == grouping_of(moves),
        is_grouping(moves, grouping_of(moves)),
{
    lemma_grouping_unique(moves, groups, grouping_of(moves));
}

/// No move into a folder, no name for it.
pub proof fn lemma_names_into_absent(moves: Seq<MovePair>, folder: Seq<char>)
    requires
        !destination_folders(moves).contains(folder),
    ensures
        names_into(moves, folder) == Seq::<Seq<char>>::empty(),
    decreases moves.len(),
{
    if moves.len() > 0 {
        let parents = moves.map_values(|m: MovePair| parent_of(m.1));
        let last = moves.len() - 1;
        assert(parents[last] == parent_of(moves.last().1));
        assert(parents.to_set().contains(parents[last]));
        let rest = moves.drop_last();
        let rest_parents = rest.map_values(|m: MovePair| parent_of(m.1));
        if destination_folders(rest).contains(folder) {
            let k = choose|k: int| 0 <= k < rest_parents.len() && rest_parents[k] == folder;
            assert(parents[k] == folder);
            assert(parents.to_set().contains(folder));
        }
        lemma_names_into_absent(rest, folder);
    }
}

/// One more move adds the folder of its destination to the destination
/// folders, and its name to the names of that folder alone.
pub proof fn lemma_next_move(moves: Seq<MovePair>, i: int, folder: Seq<char>)
    requires
        0 <= i < moves.len(),
    ensures
        destination_folders(moves.take(i + 1)) == destination_folders(moves.take(i)).insert(
            parent_of(moves[i].1),
        ),
        parent_of(moves[i].1) == folder ==> names_into(moves.take(i + 1), folder) == names_into(
            moves.take(i),
            folder,
        ).push(name_of(moves[i].1)),
        parent_of(moves[i].1) != folder ==> names_into(moves.take(i + 1), folder) == names_into(
            moves.take(i),
            folder,
        ),
{
    let longer = moves.take(i + 1);
    assert(longer.drop_last() =~= moves.take(i));
    assert(longer.last() == moves[i]);
    let parents = moves.take(i).map_values(|m: MovePair| parent_of(m.1));
    assert(longer.map_values(|m: MovePair| parent_of(m.1)) =~= parents.insert(
        i,
        parent_of(moves[i].1),
    ));
    lemma_insert_to_set(parents, i, parent_of(moves[i].1));
}

/// Replacing one group changes the total by the difference of the sizes.
pub proof fn lemma_total_after_update(groups: Seq<FolderGroupView>, at: int, group: FolderGroupView)
    requires
        0 <= at < groups.len(),
    ensures
        total_files(groups.update(at, group)) == total_files(groups) - groups[at].files.len()
            + group.files.len(),
    decreases groups.len(),
{
    let changed = groups.update(at, group);
    if at == groups.len() - 1 {
        assert(changed.drop_last() =~= groups.drop_last());
    } else {
        assert(changed.drop_last() =~= groups.drop_last().update(at, group));
        lemma_total_after_update(groups.drop_last(), at, group);
    }
}

/// A new group adds its size to the total.
pub proof fn lemma_total_after_insert(groups: Seq<FolderGroupView>, at: int, group: FolderGroupView)
    requires
        0 <= at <= groups.len(),
    ensures
        total_files(groups.insert(at, group)) == total_files(groups) + group.files.len(),
    decreases groups.len(),
{
    let changed = groups.insert(at, group);
    if at == groups.len() {
        assert(changed.drop_last() =~= groups);
    } else {
        assert(changed.drop_last() =~= groups.drop_last().insert(at, group));
        assert(changed.last() == groups.last());
        lemma_total_after_insert(groups.drop_last(), at, group);
    }
}

/// The first position among the groups, which are sorted by folder, whose
/// folder does not come before `folder`.
fn find_folder(groups: &Vec<FolderGroup>, folder: &str) -> (at: usize)
    requires
        strictly_sorted(folders_of(groups_view(groups@))),
    ensures
        at <= groups.len(),
        forall|k: int|
            0 <= k < at ==> text_less(#[trigger] folders_of(groups_view(groups@))[k], folder@),
        forall|k: int|
            at <= k < groups.len() ==> !text_less(
                #[trigger] folders_of(groups_view(groups@))[k],
                folder@,
            ),
{
    let ghost list = folders_of(groups_view(groups@));
    let mut lo: usize = 0;
    let mut hi: usize = groups.len();
    while lo < hi
        invariant
            0 <= lo <= hi <= groups.len(),
            list == folders_of(groups_view(groups@)),
            strictly_sorted(list),
            forall|k: int| 0 <= k < lo ==> text_less(#[trigger] list[k], folder@),
            forall|k: int| hi <= k < list.len() ==> !text_less(#[trigger] list[k], folder@),
        decreases hi - lo,
    {
        let mid = lo + (hi - lo) / 2;
        assert(list[mid as int] == groups[mid as int].folder@);
        if str_less(groups[mid].folder.as_str(), folder) {
            assert forall|k: int| 0 <= k < mid + 1 implies text_less(#[trigger] list[k], folder@) by {
                if k < mid {
                    assert(text_less(list[k], list[mid as int]));
                    lemma_text_order(list[k], list[mid as int], folder@);
                }
            }
            lo = mid + 1;
        } else {
            assert forall|k: int| mid <= k < list.len() implies !text_less(
                #[trigger] list[k],
                folder@,
            ) by {
                if k > mid {
                    assert(text_less(list[mid as int], list[k]));
                    lemma_text_order(list[mid as int], list[k], folder@);
                }
            }
            hi = mid;
        }
    }
    lo
}

/// Groups the planned moves by the folder that their destination lies in.
/// Every move is listed once, so the groups hold as many names as there are
/// moves.
pub fn group_moves(moves: &Vec<PlannedMove>) -> (groups: Vec<FolderGroup>)
    ensures
        groups_view(groups@) == grouping_of(moves_view(moves@)),
        is_grouping(moves_view(moves@), groups_view(groups@)),
        total_files(groups_view(groups@)) == moves.len(),
{
    let ghost all = moves_view(moves@);
    let mut groups: Vec<FolderGroup> = Vec::new();
    let mut i: usize = 0;
    proof {
        assert(all.take(0).map_values(|m: MovePair| parent_of(m.1)) =~= Seq::<Seq<char>>::empty());
        assert(destination_folders(all.take(0)) =~= Set::<Seq<char>>::empty());
        assert(folders_of(groups_view(groups@)).to_set() =~= Set::<Seq<char>>::empty());
    }
    while i < moves.len()
        invariant
            i <= moves.len(),
            all == moves_view(moves@),
            is_grouping(all.take(i as int), groups_view(groups@)),
            total_files(groups_view(groups@)) == i,
        decreases moves.len() - i,
    {
        let ghost before = groups_view(groups@);
        let ghost seen = all.take(i as int);
        let ghost next = all.take(i + 1);
        let (folder, name) = split_path(moves[i].destination.as_str());
        assert(folder@ == parent_of(all[i as int].1));
        assert(name@ == name_of(all[i as int].1));
        let at = find_folder(&groups, folder.as_str());
        if at < groups.len() && str_equal(groups[at].folder.as_str(), folder.as_str()) {
            assert(ascending(before[at as int].files));
            assert(before[at as int].files == texts(groups[at as int].files@));
            let group = &mut groups[at];
            insert_ascending(&mut group.files, name);
            proof {
                let after = groups_view(groups@);
                assert(after =~= before.update(at as int, after[at as int]));
                assert(folders_of(after) =~= folders_of(before));
                lemma_total_after_update(before, at as int, after[at as int]);
                vstd::seq_lib::to_multiset_len(before[at as int].files);
                vstd::seq_lib::to_multiset_len(after[at as int].files);
                lemma_sorted_has_no_repeats(folders_of(before));
                assert(folders_of(before)[at as int] == folder@);
                assert(folders_of(before).to_set().contains(folder@));
                assert(destination_folders(seen).insert(folder@) =~= destination_folders(seen));
                assert forall|g: int| 0 <= g < after.len() implies ascending(
                    (#[trigger] after[g]).files,
                ) && after[g].files.to_multiset() == names_into(next, after[g].folder).to_multiset() by {
                    lemma_next_move(all, i as int, after[g].folder);
                    if g == at {
                        vstd::seq_lib::to_multiset_build(names_into(seen, folder@), name@);
                    } else {
                        assert(after[g] == before[g]);
                        assert(folders_of(before)[g] == before[g].folder);
                    }
                }
                lemma_next_move(all, i as int, folder@);
            }
        } else {
            let ghost placed = FolderGroupView { folder: folder@, files: seq![name@] };
            let mut files: Vec<String> = Vec::new();
            files.push(name);
            assert(texts(files@) =~= seq![name@]);
            groups.insert(at, FolderGroup { folder, files });
            proof {
                let after = groups_view(groups@);
                assert(after =~= before.insert(at as int, placed));
                assert(folders_of(after) =~= folders_of(before).insert(at as int, placed.folder));
                lemma_total_after_insert(before, at as int, placed);
                if at < before.len() {
                    assert(folders_of(before)[at as int] == before[at as int].folder);
                }
                lemma_insert_keeps_sorted(folders_of(before), at as int, placed.folder);
                lemma_insert_to_set(folders_of(before), at as int, placed.folder);
                lemma_next_move(all, i as int, placed.folder);
                lemma_names_into_absent(seen, placed.folder);
                assert forall|g: int| 0 <= g < after.len() implies ascending(
                    (#[trigger] after[g]).files,
                ) && after[g].files.to_multiset() == names_into(next, after[g].folder).to_multiset() by {
                    lemma_next_move(all, i as int, after[g].folder);
                    if g == at {
                        assert(names_into(next, placed.folder) =~= seq![name@]);
                    } else {
                        let h = if g < at {
                            g
                        } else {
                            g - 1
                        };
                        assert(after[g] == before[h]);
                        assert(folders_of(before)[h] == before[h].folder);
                        assert(folders_of(before).to_set().contains(before[h].folder));
                    }
                }
            }
        }
        i += 1;
    }
    assert(all.take(moves.len() as int) =~= all);
    proof {
        lemma_grouping_is_chosen(all, groups_view(groups@));
    }
    groups
}

/// The glyph in front of a folder: a corner for the last one, a tee for the
/// others.
pub open spec fn branch_glyph(last_folder: bool) -> Seq<char> {
    if last_folder {
        "└── "@
    } else {
        "├── "@
    }
}

/// The glyphs in front of a file: the trunk continues beside it unless its
/// folder is the last, and the file hangs on a corner if it is the last of
/// its folder, on a tee otherwise.
pub open spec fn leaf_glyph(last_folder: bool, last_file: bool) -> Seq<char> {
    if last_file {
        if last_folder {
            "    └── "@
        } else {
            "│   └── "@
        }
    } else {
        if last_folder {
            "    ├── "@
        } else {
            "│   ├── "@
        }
    }
}

/// The lines of the first `upto` files of a folder.
pub open spec fn leaves_text(files: Seq<Seq<char>>, last_folder: bool, upto: int) -> Seq<char>
    decreases upto,
{
    if upto <= 0 {
        Seq::empty()
    } else {
        leaves_text(files, last_folder, upto - 1) + leaf_glyph(last_folder, upto == files.len())
            + files[upto - 1] + seq!['\n']
    }
}

/// The lines of one folder: its label in bold blue, then its files.
pub open spec fn group_text(group: FolderGroupView, last_folder: bool) -> Seq<char> {
    branch_glyph(last_folder) + "\x1b[1;34m"@ + label_of(group.folder) + "\x1b[0m"@ + seq!['\n']
        + leaves_text(group.files, last_folder, group.files.len() as int)
}

/// The lines of the first `upto` folders.
pub open spec fn tree_text(groups: Seq<FolderGroupView>, upto: int) -> Seq<char>
    decreases upto,
{
    if upto <= 0 {
        Seq::empty()
    } else {
        tree_text(groups, upto - 1) + group_text(groups[upto - 1], upto == groups.len())
    }
}

/// The closing lines: how many folders, how many files, and that nothing
/// was changed.
pub open spec fn summary_text(folders: nat, files: nat) -> Seq<char> {
    "\nSummary:\n  Total folders: "@ + decimal_of(folders) + "\n  Total files:   "@ + decimal_of(
        files,
    ) + "\n  Mode:          dry-run (no changes made)\n"@
}

/// The whole preview: the root marker, the tree and the summary.
pub open spec fn preview_text(groups: Seq<FolderGroupView>) -> Seq<char> {
    ".\n"@ + tree_text(groups, groups.len() as int) + summary_text(
        groups.len(),
        total_files(groups),
    )
}

/// The preview of `moves`: their grouping, drawn.
pub open spec fn preview_of(moves: Seq<MovePair>) -> Seq<char> {
    preview_text(grouping_of(moves))
}

/// The glyphs in front of a file.
fn leaf_glyph_for(last_folder: bool, last_file: bool) -> (glyph: &'static str)
    ensures
        glyph@ == leaf_glyph(last_folder, last_file),
{
    if last_file {
        if last_folder {
            "    └── "
        } else {
            "│   └── "
        }
    } else {
        if last_folder {
            "    ├── "
        } else {
            "│   ├── "
        }
    }
}

/// Appends one line for each of `files`.
fn push_leaves(out: &mut String, files: &Vec<String>, last_folder: bool)
    ensures
        final(out)@ == old(out)@ + leaves_text(texts(files@), last_folder, files.len() as int),
{
    let ghost names = texts(files@);
    let mut j: usize = 0;
    assert(out@ + leaves_text(names, last_folder, 0) =~= out@);
    while j < files.len()
        invariant
            j <= files.len(),
            names == texts(files@),
            out@ == old(out)@ + leaves_text(names, last_folder, j as int),
        decreases files.len() - j,
    {
        let ghost so_far = out@;
        let glyph = leaf_glyph_for(last_folder, j + 1 == files.len());
        out.append(glyph);
        out.append(files[j].as_str());
        push_char(out, '\n');
        j += 1;
        assert(out@ =~= old(out)@ + leaves_text(names, last_folder, j as int)) by {
            assert(names[j - 1] == files[j - 1]@);
            assert(out@ =~= so_far + glyph@ + names[j - 1] + seq!['\n']);
        }
    }
}

/// Appends the lines of one folder.
fn push_group(out: &mut String, group: &FolderGroup, last_folder: bool)
    ensures
        final(out)@ == old(out)@ + group_text(group@, last_folder),
{
    let label = folder_label(group.folder.as_str());
    let ghost head = branch_glyph(last_folder) + "\x1b[1;34m"@ + label@ + "\x1b[0m"@ + seq!['\n'];
    if last_folder {
        out.append("└── ");
    } else {
        out.append("├── ");
    }
    out.append("\x1b[1;34m");
    out.append(label.as_str());
    out.append("\x1b[0m");
    push_char(out, '\n');
    assert(out@ =~= old(out)@ + head);
    push_leaves(out, &group.files, last_folder);
    assert(out@ =~= old(out)@ + group_text(group@, last_folder));
}

/// Renders folder groups as a tree with a summary. The text has one line
/// for the root, one for each folder and one for each file, then the
/// summary; every line ends in a line feed.
pub fn layout_preview(groups: &Vec<FolderGroup>) -> (text: String)
    ensures
        text@ == preview_text(groups_view(groups@)),
{
    let ghost shown = groups_view(groups@);
    let mut text = String::from_str(".\n");
    let mut total: u128 = 0;
    let mut i: usize = 0;
    assert(text@ + tree_text(shown, 0) =~= text@);
    assert(shown.take(0) =~= Seq::<FolderGroupView>::empty());
    while i < groups.len()
        invariant
            i <= groups.len(),
            shown == groups_view(groups@),
            text@ == ".\n"@ + tree_text(shown, i as int),
            total == total_files(shown.take(i as int)),
            total <= i * 0x1_0000_0000_0000_0000,
        decreases groups.len() - i,
    {
        let ghost so_far = text@;
        push_group(&mut text, &groups[i], i + 1 == groups.len());
        total = total + groups[i].files.len() as u128;
        i += 1;
        assert(shown.take(i as int).drop_last() =~= shown.take(i - 1));
        assert(shown[i - 1] == groups[i - 1]@);
        assert(text@ =~= ".\n"@ + tree_text(shown, i as int));
    }
    assert(shown.take(groups.len() as int) =~= shown);
    let ghost tree = text@;
    text.append("\nSummary:\n  Total folders: ");
    push_decimal(&mut text, groups.len() as u128);
    text.append("\n  Total files:   ");
    push_decimal(&mut text, total);
    text.append("\n  Mode:          dry-run (no changes made)\n");
    assert(text@ =~= tree + summary_text(shown.len(), total_files(shown)));
    text
}

/// The preview of a dry run: the planned moves grouped by destination
/// folder, folders and files in ascending order, drawn as a tree, with a
/// summary that counts the folders and the files and says that nothing was
/// changed. The text depends on the planned moves alone.
pub fn render_dry_run_preview(moves: &Vec<PlannedMove>) -> (text: String)
    ensures
        text@ == preview_of(moves_view(moves@)),
        is_grouping(moves_view(moves@), grouping_of(moves_view(moves@))),
        total_files(grouping_of(moves_view(moves@))) == moves.len(),
{
    let groups = group_moves(moves);
    layout_preview(&groups)
}

} // verus!
