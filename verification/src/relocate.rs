//! The relocation executor as a state machine. The machine decides; whoever
//! drives it touches the disk: it asks the machine what to do next, does it,
//! and reports how it went.
//!
//! Folders are handled one bucket at a time. For each bucket the folder is
//! probed and, if missing, created: for every bucket, also one without
//! files. Then each move of the bucket is carried out: a file that is where
//! it belongs is passed over, an occupied destination is a conflict unless
//! overwriting was asked for, and a rename that fails is replaced by a copy
//! followed by the removal of the source.

use vstd::prelude::*;
use crate::error::{framed, ErrorView, RefolderError};
use crate::plan::{
    all_moves,
    all_moves_of,
    in_place,
    plan_view,
    BucketPlan,
    BucketPlanView,
    MovePair,
};
use crate::preview::{preview_of, render_dry_run_preview};

verus! {

/// Where a run stands: which answer the machine is waiting for.
#[derive(Debug, Clone, Copy, PartialEq, Eq)]
pub enum Phase {
    /// Whether the bucket's folder exists.
    Folder,
    /// The creation of the bucket's folder.
    CreatingFolder,
    /// Whether something is at the destination of the current move.
    Destination,
    /// The removal of what occupies the destination.
    Clearing,
    /// The rename of the current file.
    Renaming,
    /// The copy that replaces a failed rename.
    Copying,
    /// The removal of the source after the copy.
    RemovingSource,
    /// The showing of the preview.
    Preview,
    /// Nothing: the run is complete.
    Finished,
    /// Nothing: the run has failed.
    Failed,
}

/// What the driver is to do next.
#[derive(Debug, PartialEq, Eq)]
pub enum Request {
    /// Look at `path` and answer `Absent`, `Directory` or `Occupied`.
    ProbeFolder { path: String },
    /// Create the folder `path` and any missing ancestor.
    CreateFolder { path: String },
    /// Look at `path` and answer `Absent`, `Directory` or `Occupied`.
    ProbeDestination { path: String },
    /// Delete the file at `path`, which is in the way.
    RemoveDestination { path: String },
    /// Rename `from` to `to`.
    Rename { from: String, to: String },
    /// Copy the file `from` to `to`.
    Copy { from: String, to: String },
    /// Delete the file at `path`, which has been copied.
    RemoveSource { path: String },
    /// Show `text` to the user.
    ShowPreview { text: String },
    /// Stop: everything is done.
    Finished,
    /// Stop: the run has failed with `error`.
    Failed { error: RefolderError },
}

/// A request as plain values.
pub enum RequestView {
    ProbeFolder { path: Seq<char> },
    CreateFolder { path: Seq<char> },
    ProbeDestination { path: Seq<char> },
    RemoveDestination { path: Seq<char> },
    Rename { from: Seq<char>, to: Seq<char> },
    Copy { from: Seq<char>, to: Seq<char> },
    RemoveSource { path: Seq<char> },
    ShowPreview { text: Seq<char> },
    Finished,
    Failed { error: ErrorView },
}

impl View for Request {
    type V = RequestView;

    open spec fn view(&self) -> RequestView {
        match self {
            Request::ProbeFolder { path } => RequestView::ProbeFolder { path: path@ },
            Request::CreateFolder { path } => RequestView::CreateFolder { path: path@ },
            Request::ProbeDestination { path } => RequestView::ProbeDestination { path: path@ },
            Request::RemoveDestination { path } => RequestView::RemoveDestination { path: path@ },
            Request::Rename { from, to } => RequestView::Rename { from: from@, to: to@ },
            Request::Copy { from, to } => RequestView::Copy { from: from@, to: to@ },
            Request::RemoveSource { path } => RequestView::RemoveSource { path: path@ },
            Request::ShowPreview { text } => RequestView::ShowPreview { text: text@ },
            Request::Finished => RequestView::Finished,
            Request::Failed { error } => RequestView::Failed { error: error@ },
        }
    }
}

/// How the last request went.
#[derive(Debug, PartialEq, Eq)]
pub enum Reply {
    /// The probe found nothing at the path.
    Absent,
    /// The probe found a directory.
    Directory,
    /// The probe found something that is not a directory.
    Occupied,
    /// The operation succeeded.
    Done,
    /// The operation failed; `cause` is what the system reported.
    Failed { cause: String },
}

/// A reply as plain values.
pub enum ReplyView {
    Absent,
    Directory,
    Occupied,
    Done,
    Failed { cause: Seq<char> },
}

impl View for Reply {
    type V = ReplyView;

    open spec fn view(&self) -> ReplyView {
        match self {
            Reply::Absent => ReplyView::Absent,
            Reply::Directory => ReplyView::Directory,
            Reply::Occupied => ReplyView::Occupied,
            Reply::Done => ReplyView::Done,
            Reply::Failed { cause } => ReplyView::Failed { cause: cause@ },
        }
    }
}

impl ReplyView {
    /// The answer to a probe that found these two facts about a path.
    pub open spec fn probed(exists: bool, is_directory: bool) -> ReplyView {
        if !exists {
            ReplyView::Absent
        } else if is_directory {
            ReplyView::Directory
        } else {
            ReplyView::Occupied
        }
    }
}

impl Reply {
    /// The answer to a probe, from whether anything exists at the path and
    /// whether it is a directory: nothing there, a directory, or something
    /// that is in the way.
    pub fn probed(exists: bool, is_directory: bool) -> (reply: Reply)
        ensures
            reply@ == ReplyView::probed(exists, is_directory),
    {
        if !exists {
            Reply::Absent
        } else if is_directory {
            Reply::Directory
        } else {
            Reply::Occupied
        }
    }

    /// The report on an operation, from the reason for which it failed, if
    /// it did.
    pub fn outcome(failure: Option<String>) -> (reply: Reply)
        ensures
            match failure {
                None => reply@ == ReplyView::Done,
                Some(reason) => reply@ == (ReplyView::Failed { cause: reason@ }),
            },
    {
        match failure {
            None => Reply::Done,
            Some(reason) => Reply::Failed { cause: reason },
        }
    }
}

/// The first position from `from` on whose move has work to do: its source
/// is not already its destination. The number of moves if there is none.
pub open spec fn skip_identities(moves: Seq<MovePair>, from: int) -> int
    decreases moves.len() - from,
{
    if from < 0 || from >= moves.len() {
        moves.len() as int
    } else if moves[from].0 != moves[from].1 {
        from
    } else {
        skip_identities(moves, from + 1)
    }
}

/// What is reported when a folder cannot be created.
pub open spec fn create_context(folder: Seq<char>) -> Seq<char> {
    "Failed to create directory "@ + folder
}

/// What is reported when an occupied destination cannot be cleared.
pub open spec fn clear_context(destination: Seq<char>) -> Seq<char> {
    "Failed removing existing destination file "@ + destination
}

/// What is reported when the copy fails too; `renaming` is why the rename
/// had failed before it.
pub open spec fn copy_context(source: Seq<char>, destination: Seq<char>, renaming: Seq<char>) -> Seq<
    char,
> {
    "Failed copying "@ + source + " to "@ + destination + ": "@ + renaming
}

/// What is reported when the source cannot be removed after the copy.
pub open spec fn remove_context(source: Seq<char>) -> Seq<char> {
    "Failed removing original file "@ + source
}

/// The state of a run as plain values.
pub struct RelocationView {
    /// The plan that is carried out.
    pub plan: Seq<BucketPlanView>,
    /// Whether the run only shows what it would do.
    pub dry_run: bool,
    /// Whether occupied destinations are overwritten.
    pub force: bool,
    /// The bucket at work; the number of buckets once all are done.
    pub bucket: int,
    /// The move at work within the bucket.
    pub index: int,
    /// What the machine is waiting for.
    pub phase: Phase,
    /// The error, once the run has failed.
    pub error: Option<ErrorView>,
    /// Why the last rename failed.
    pub rename_cause: Seq<char>,
    /// The preview of a dry run.
    pub preview: Seq<char>,
}

impl RelocationView {
    /// The folder of the bucket at work.
    pub open spec fn folder(self) -> Seq<char> {
        self.plan[self.bucket].folder
    }

    /// The moves of the bucket at work.
    pub open spec fn moves(self) -> Seq<MovePair> {
        self.plan[self.bucket].moves
    }

    /// The move at work.
    pub open spec fn current(self) -> MovePair {
        self.plan[self.bucket].moves[self.index]
    }

    /// Whether the state is one that a run can be in.
    pub open spec fn well_formed(self) -> bool {
        match self.phase {
            Phase::Folder | Phase::CreatingFolder => {
                &&& !self.dry_run
                &&& self.error is None
                &&& 0 <= self.bucket < self.plan.len()
                &&& self.index == 0
            },
            Phase::Destination | Phase::Clearing | Phase::Renaming | Phase::Copying | Phase::RemovingSource => {
                &&& !self.dry_run
                &&& self.error is None
                &&& 0 <= self.bucket < self.plan.len()
                &&& 0 <= self.index < self.moves().len()
                &&& self.current().0 != self.current().1
            },
            Phase::Preview => {
                &&& self.dry_run
                &&& self.error is None
                &&& self.plan.len() > 0
                &&& self.bucket == 0
                &&& self.index == 0
            },
            Phase::Finished => {
                &&& self.error is None
                &&& self.index == 0
                &&& if self.dry_run {
                    self.bucket == 0
                } else {
                    self.bucket == self.plan.len()
                }
            },
            Phase::Failed => {
                &&& !self.dry_run
                &&& self.error is Some
                &&& 0 <= self.bucket < self.plan.len()
                &&& 0 <= self.index <= self.moves().len()
            },
        }
    }

    /// The state in which a run begins. Without any bucket there is nothing
    /// to do. A dry run shows `preview` and is done; a real run starts with
    /// the folder of the first bucket.
    pub open spec fn initial(
        plan: Seq<BucketPlanView>,
        dry_run: bool,
        force: bool,
        preview: Seq<char>,
    ) -> RelocationView {
        RelocationView {
            plan,
            dry_run,
            force,
            bucket: 0,
            index: 0,
            phase: if plan.len() == 0 {
                Phase::Finished
            } else if dry_run {
                Phase::Preview
            } else {
                Phase::Folder
            },
            error: None,
            rename_cause: Seq::empty(),
            preview: if plan.len() > 0 && dry_run {
                preview
            } else {
                Seq::empty()
            },
        }
    }

    /// What the driver is asked to do in this state.
    pub open spec fn request(self) -> RequestView {
        match self.phase {
            Phase::Folder => RequestView::ProbeFolder { path: self.folder() },
            Phase::CreatingFolder => RequestView::CreateFolder { path: self.folder() },
            Phase::Destination => RequestView::ProbeDestination { path: self.current().1 },
            Phase::Clearing => RequestView::RemoveDestination { path: self.current().1 },
            Phase::Renaming => RequestView::Rename { from: self.current().0, to: self.current().1 },
            Phase::Copying => RequestView::Copy { from: self.current().0, to: self.current().1 },
            Phase::RemovingSource => RequestView::RemoveSource { path: self.current().0 },
            Phase::Preview => RequestView::ShowPreview { text: self.preview },
            Phase::Finished => RequestView::Finished,
            Phase::Failed => RequestView::Failed { error: self.error->0 },
        }
    }

    /// The same state, waiting for something else.
    pub open spec fn waiting_for(self, phase: Phase) -> RelocationView {
        RelocationView { phase, ..self }
    }

    /// The state after the run failed with `error`.
    pub open spec fn failing(self, error: ErrorView) -> RelocationView {
        RelocationView { phase: Phase::Failed, error: Some(error), ..self }
    }

    /// The state in which the moves of the bucket at work are taken up from
    /// position `from`: at the first move from there on that has work to do;
    /// with none left, at the folder of the next bucket; and after the last
    /// bucket, at the end.
    pub open spec fn entering(self, from: int) -> RelocationView {
        let next = skip_identities(self.moves(), from);
        if next < self.moves().len() {
            RelocationView { index: next, phase: Phase::Destination, ..self }
        } else if self.bucket + 1 < self.plan.len() {
            RelocationView { bucket: self.bucket + 1, index: 0, phase: Phase::Folder, ..self }
        } else {
            RelocationView {
                bucket: self.plan.len() as int,
                index: 0,
                phase: Phase::Finished,
                ..self
            }
        }
    }

    /// The state after `reply` was given to the request of this state. A
    /// reply that does not answer the request changes nothing.
    pub open spec fn after(self, reply: ReplyView) -> RelocationView {
        match self.phase {
            Phase::Folder => match reply {
                ReplyView::Absent => self.waiting_for(Phase::CreatingFolder),
                ReplyView::Directory => self.entering(0),
                ReplyView::Occupied => self.failing(
                    ErrorView::FolderConflict { path: self.folder() },
                ),
                _ => self,
            },
            Phase::CreatingFolder => match reply {
                ReplyView::Done => self.entering(0),
                ReplyView::Failed { cause } => self.failing(
                    ErrorView::Filesystem { context: create_context(self.folder()), cause },
                ),
                _ => self,
            },
            Phase::Destination => match reply {
                ReplyView::Absent => self.waiting_for(Phase::Renaming),
                ReplyView::Directory | ReplyView::Occupied => if self.force {
                    self.waiting_for(Phase::Clearing)
                } else {
                    self.failing(ErrorView::FileConflict { path: self.current().1 })
                },
                _ => self,
            },
            Phase::Clearing => match reply {
                ReplyView::Done => self.waiting_for(Phase::Renaming),
                ReplyView::Failed { cause } => self.failing(
                    ErrorView::Filesystem { context: clear_context(self.current().1), cause },
                ),
                _ => self,
            },
            Phase::Renaming => match reply {
                ReplyView::Done => self.entering(self.index + 1),
                ReplyView::Failed { cause } => RelocationView {
                    phase: Phase::Copying,
                    rename_cause: cause,
                    ..self
                },
                _ => self,
            },
            Phase::Copying => match reply {
                ReplyView::Done => self.waiting_for(Phase::RemovingSource),
                ReplyView::Failed { cause } => self.failing(
                    ErrorView::Filesystem {
                        context: copy_context(
                            self.current().0,
                            self.current().1,
                            self.rename_cause,
                        ),
                        cause,
                    },
                ),
                _ => self,
            },
            Phase::RemovingSource => match reply {
                ReplyView::Done => self.entering(self.index + 1),
                ReplyView::Failed { cause } => self.failing(
                    ErrorView::Filesystem { context: remove_context(self.current().0), cause },
                ),
                _ => self,
            },
            Phase::Preview => match reply {
                ReplyView::Done => self.waiting_for(Phase::Finished),
                _ => self,
            },
            Phase::Finished => self,
            Phase::Failed => self,
        }
    }
}

/// Where the skipping of moves without work ends: at a move with work to do
/// or behind the last move, and every move passed over is already in place.
pub proof fn lemma_skip_identities(moves: Seq<MovePair>, from: int)
    requires
        0 <= from <= moves.len(),
    ensures
        from <= skip_identities(moves, from) <= moves.len(),
        skip_identities(moves, from) < moves.len() ==> moves[skip_identities(moves, from)].0
            != moves[skip_identities(moves, from)].1,
        forall|k: int| from <= k < skip_identities(moves, from) ==> (#[trigger] moves[k]).0 == moves[k].1,
    decreases moves.len() - from,
{
    if from < moves.len() && moves[from].0 == moves[from].1 {
        lemma_skip_identities(moves, from + 1);
    }
}

/// Every reply leads from a state that a run can be in to another such
/// state.
pub proof fn lemma_after_is_well_formed(state: RelocationView, reply: ReplyView)
    requires
        state.well_formed(),
    ensures
        state.after(reply).well_formed(),
{
    match state.phase {
        Phase::Folder | Phase::CreatingFolder => {
            lemma_skip_identities(state.moves(), 0);
        },
        Phase::Renaming | Phase::RemovingSource => {
            lemma_skip_identities(state.moves(), state.index + 1);
        },
        _ => {},
    }
}

/// The moves among `moves` that have work to do, in order.
pub open spec fn with_work(moves: Seq<MovePair>) -> Seq<MovePair>
    decreases moves.len(),
{
    if moves.len() == 0 {
        Seq::empty()
    } else if moves.last().0 != moves.last().1 {
        with_work(moves.drop_last()).push(moves.last())
    } else {
        with_work(moves.drop_last())
    }
}

/// The state that `replies`, given one after the other, lead to from `state`.
pub open spec fn run_of(state: RelocationView, replies: Seq<ReplyView>) -> RelocationView
    decreases replies.len(),
{
    if replies.len() == 0 {
        state
    } else {
        run_of(state, replies.drop_last()).after(replies.last())
    }
}

/// The move that `reply` reports as carried out in `state`, if it does: the
/// current move, once its rename succeeded, or once its source was removed
/// after the copy.
pub open spec fn relocated_by(state: RelocationView, reply: ReplyView) -> Seq<MovePair> {
    if (state.phase == Phase::Renaming || state.phase == Phase::RemovingSource) && reply
        == ReplyView::Done {
        seq![state.current()]
    } else {
        Seq::empty()
    }
}

/// The moves that `replies` report as carried out, from `state` on.
pub open spec fn relocated_in(state: RelocationView, replies: Seq<ReplyView>) -> Seq<MovePair>
    decreases replies.len(),
{
    if replies.len() == 0 {
        Seq::empty()
    } else {
        relocated_in(state, replies.drop_last()) + relocated_by(
            run_of(state, replies.drop_last()),
            replies.last(),
        )
    }
}

impl RelocationView {
    /// The planned moves that the run is through with: those of the buckets
    /// before the one at work, and those before the move at work.
    pub open spec fn handled(self) -> Seq<MovePair> {
        if 0 <= self.bucket < self.plan.len() {
            all_moves_of(self.plan.take(self.bucket)) + self.moves().take(self.index)
        } else {
            all_moves_of(self.plan)
        }
    }
}

/// Taking the moves with work out of two lists and joining them is the same
/// as taking them out of the joined list.
pub proof fn lemma_with_work_of_joined(a: Seq<MovePair>, b: Seq<MovePair>)
    ensures
        with_work(a + b) == with_work(a) + with_work(b),
    decreases b.len(),
{
    if b.len() == 0 {
        assert(a + b =~= a);
        assert(with_work(a) + with_work(b) =~= with_work(a));
    } else {
        assert((a + b).drop_last() =~= a + b.drop_last());
        assert((a + b).last() == b.last());
        lemma_with_work_of_joined(a, b.drop_last());
        assert(with_work(a + b) =~= with_work(a) + with_work(b));
    }
}

/// Among moves that are all in place already, none has work to do.
pub proof fn lemma_with_work_of_identities(moves: Seq<MovePair>)
    requires
        forall|k: int| 0 <= k < moves.len() ==> (#[trigger] moves[k]).0 == moves[k].1,
    ensures
        with_work(moves) == Seq::<MovePair>::empty(),
    decreases moves.len(),
{
    if moves.len() > 0 {
        assert forall|k: int| 0 <= k < moves.drop_last().len() implies (#[trigger] moves.drop_last()[k]).0
            == moves.drop_last()[k].1 by {
            assert(moves.drop_last()[k] == moves[k]);
        }
        lemma_with_work_of_identities(moves.drop_last());
    }
}

/// The moves of the first `b + 1` buckets are those of the first `b`,
/// followed by the moves of bucket `b`.
pub proof fn lemma_moves_of_next_bucket(plan: Seq<BucketPlanView>, b: int)
    requires
        0 <= b < plan.len(),
    ensures
        all_moves_of(plan.take(b + 1)) == all_moves_of(plan.take(b)) + plan[b].moves,
        all_moves_of(plan.take(plan.len() as int)) == all_moves_of(plan),
        all_moves_of(plan.take(0)) == Seq::<MovePair>::empty(),
{
    let lists = plan.take(b).map_values(|p: BucketPlanView| p.moves);
    assert(plan.take(b + 1).map_values(|p: BucketPlanView| p.moves) =~= lists.push(plan[b].moves));
    lists.lemma_flatten_push(plan[b].moves);
    assert(plan.take(plan.len() as int) =~= plan);
    assert(plan.take(0).map_values(|p: BucketPlanView| p.moves) =~= Seq::<Seq<MovePair>>::empty());
}

/// Taking up the moves of a bucket passes over moves that are in place
/// already, and over nothing else.
proof fn lemma_entering_handles_identities(state: RelocationView, from: int)
    requires
        0 <= state.bucket < state.plan.len(),
        0 <= from <= state.moves().len(),
    ensures
        with_work(state.entering(from).handled()) == with_work(
            all_moves_of(state.plan.take(state.bucket)) + state.moves().take(from),
        ),
{
    let moves = state.moves();
    let before = all_moves_of(state.plan.take(state.bucket));
    let next = skip_identities(moves, from);
    lemma_skip_identities(moves, from);
    lemma_moves_of_next_bucket(state.plan, state.bucket);
    let passed = moves.subrange(from, next);
    assert forall|k: int| 0 <= k < passed.len() implies (#[trigger] passed[k]).0 == passed[k].1 by {
        assert(passed[k] == moves[from + k]);
    }
    lemma_with_work_of_identities(passed);
    assert(moves.take(next) =~= moves.take(from) + passed);
    assert(before + moves.take(next) =~= (before + moves.take(from)) + passed);
    lemma_with_work_of_joined(before + moves.take(from), passed);
    assert(with_work(before + moves.take(from)) + Seq::<MovePair>::empty() =~= with_work(
        before + moves.take(from),
    ));
    let entered = state.entering(from);
    if next < moves.len() {
        assert(entered.handled() == before + moves.take(next));
    } else {
        assert(moves.take(next) =~= moves);
        if state.bucket + 1 < state.plan.len() {
            assert(entered.moves().take(0) =~= Seq::<MovePair>::empty());
            assert(entered.handled() =~= before + moves);
        } else {
            assert(entered.handled() == all_moves_of(state.plan));
            assert(state.plan.take(state.bucket + 1) =~= state.plan);
        }
    }
}

/// One step of the account: after a reply the moves with work that the run
/// is through with are those it was through with before, and after them the
/// move that the reply reports as carried out, if it reports one.
pub proof fn lemma_step_accounts(state: RelocationView, reply: ReplyView)
    requires
        state.well_formed(),
    ensures
        with_work(state.after(reply).handled()) == with_work(state.handled()) + relocated_by(
            state,
            reply,
        ),
{
    let done = with_work(state.handled());
    assert(done + Seq::<MovePair>::empty() =~= done);
    if state.after(reply) != state {
        match state.phase {
            Phase::Folder | Phase::CreatingFolder => {
                if state.after(reply) == state.entering(0) {
                    lemma_entering_handles_identities(state, 0);
                }
            },
            Phase::Renaming | Phase::RemovingSource => {
                if reply == ReplyView::Done {
                    let before = all_moves_of(state.plan.take(state.bucket));
                    let moves = state.moves();
                    lemma_entering_handles_identities(state, state.index + 1);
                    assert(moves.take(state.index + 1) =~= moves.take(state.index).push(
                        state.current(),
                    ));
                    assert(before + moves.take(state.index + 1) =~= (before + moves.take(
                        state.index,
                    )).push(state.current()));
                    assert((before + moves.take(state.index)).push(state.current()).drop_last()
                        =~= before + moves.take(state.index));
                }
            },
            _ => {},
        }
    }
}

/// Every state of a run is one that a run can be in, and a run keeps its
/// plan and its settings.
pub proof fn lemma_run_is_well_formed(state: RelocationView, replies: Seq<ReplyView>)
    requires
        state.well_formed(),
    ensures
        run_of(state, replies).well_formed(),
        run_of(state, replies).plan == state.plan,
        run_of(state, replies).dry_run == state.dry_run,
        run_of(state, replies).force == state.force,
    decreases replies.len(),
{
    if replies.len() > 0 {
        lemma_run_is_well_formed(state, replies.drop_last());
        lemma_after_is_well_formed(run_of(state, replies.drop_last()), replies.last());
    }
}

/// The account of a real run. Whatever the replies, the moves that they
/// report as carried out are exactly the planned moves with work to do that
/// the run is through with, in plan order; and a run that has finished is
/// through with every planned move.
pub proof fn lemma_run_accounts(
    plan: Seq<BucketPlanView>,
    force: bool,
    replies: Seq<ReplyView>,
)
    ensures
        ({
            let begin = RelocationView::initial(plan, false, force, Seq::empty());
            let end = run_of(begin, replies);
            &&& relocated_in(begin, replies) == with_work(end.handled())
            &&& end.phase == Phase::Finished ==> relocated_in(begin, replies) == with_work(
                all_moves_of(plan),
            )
        }),
    decreases replies.len(),
{
    let begin = RelocationView::initial(plan, false, force, Seq::empty());
    if replies.len() == 0 {
        if plan.len() > 0 {
            lemma_moves_of_next_bucket(plan, 0);
            assert(begin.moves().take(0) =~= Seq::<MovePair>::empty());
            assert(begin.handled() =~= Seq::<MovePair>::empty());
        } else {
            assert(plan.map_values(|p: BucketPlanView| p.moves) =~= Seq::<Seq<MovePair>>::empty());
            assert(begin.handled() =~= Seq::<MovePair>::empty());
        }
    } else {
        let earlier = replies.drop_last();
        lemma_run_accounts(plan, force, earlier);
        lemma_run_is_well_formed(begin, earlier);
        lemma_step_accounts(run_of(begin, earlier), replies.last());
    }
    lemma_run_is_well_formed(begin, replies);
}

/// A dry run and a real run of one plan speak of the same moves: the dry run
/// shows a preview of all planned moves and asks for nothing else, and a
/// real run that finishes has carried out exactly the planned moves that
/// were not in place already.
pub proof fn lemma_dry_run_fidelity(
    plan: Seq<BucketPlanView>,
    force: bool,
    preview: Seq<char>,
    replies: Seq<ReplyView>,
)
    requires
        plan.len() > 0,
    ensures
        RelocationView::initial(plan, true, force, preview).request() == (RequestView::ShowPreview {
            text: preview,
        }),
        run_of(RelocationView::initial(plan, true, force, preview), replies).phase == Phase::Preview
            || run_of(RelocationView::initial(plan, true, force, preview), replies).phase
            == Phase::Finished,
        run_of(RelocationView::initial(plan, false, force, Seq::empty()), replies).phase
            == Phase::Finished ==> relocated_in(
            RelocationView::initial(plan, false, force, Seq::empty()),
            replies,
        ) == with_work(all_moves_of(plan)),
    decreases replies.len(),
{
    lemma_run_accounts(plan, force, replies);
    if replies.len() > 0 {
        lemma_dry_run_fidelity(plan, force, preview, replies.drop_last());
    }
}

/// In a plan that leaves every file where it is, no bucket has a move with
/// work to do.
proof fn lemma_in_place_has_no_work(plan: Seq<BucketPlanView>, b: int)
    requires
        in_place(plan),
        0 <= b <= plan.len(),
    ensures
        with_work(all_moves_of(plan.take(b))) == Seq::<MovePair>::empty(),
    decreases b,
{
    if b == 0 {
        if plan.len() > 0 {
            lemma_moves_of_next_bucket(plan, 0);
        } else {
            assert(plan.take(0).map_values(|p: BucketPlanView| p.moves) =~= Seq::<
                Seq<MovePair>,
            >::empty());
        }
    } else {
        lemma_in_place_has_no_work(plan, b - 1);
        lemma_moves_of_next_bucket(plan, b - 1);
        let moves = plan[b - 1].moves;
        assert forall|k: int| 0 <= k < moves.len() implies (#[trigger] moves[k]).0 == moves[k].1 by {
            assert(plan[b - 1].moves[k].0 == plan[b - 1].moves[k].1);
        }
        lemma_with_work_of_identities(moves);
        lemma_with_work_of_joined(all_moves_of(plan.take(b - 1)), moves);
    }
}

/// A real run of a plan that leaves every file where it is relocates
/// nothing, whatever the replies: so a second run on the output of a first
/// changes no file.
pub proof fn lemma_in_place_run_relocates_nothing(
    plan: Seq<BucketPlanView>,
    force: bool,
    replies: Seq<ReplyView>,
)
    requires
        in_place(plan),
    ensures
        relocated_in(RelocationView::initial(plan, false, force, Seq::empty()), replies)
            == Seq::<MovePair>::empty(),
{
    let begin = RelocationView::initial(plan, false, force, Seq::empty());
    let end = run_of(begin, replies);
    lemma_run_accounts(plan, force, replies);
    lemma_run_is_well_formed(begin, replies);
    if 0 <= end.bucket < plan.len() {
        lemma_in_place_has_no_work(plan, end.bucket);
        let passed = end.moves().take(end.index);
        assert forall|k: int| 0 <= k < passed.len() implies (#[trigger] passed[k]).0
            == passed[k].1 by {
            assert(plan[end.bucket].moves[k].0 == plan[end.bucket].moves[k].1);
        }
        lemma_with_work_of_identities(passed);
        lemma_with_work_of_joined(all_moves_of(plan.take(end.bucket)), passed);
    } else {
        lemma_in_place_has_no_work(plan, plan.len() as int);
        assert(plan.take(plan.len() as int) =~= plan);
    }
}

/// An occupied destination without leave to overwrite ends the run with a
/// conflict that names the destination, and no reply leads on from there:
/// nothing is asked to be done to that file.
pub proof fn lemma_conflict_without_force(
    state: RelocationView,
    found: ReplyView,
    later: ReplyView,
)
    requires
        state.well_formed(),
        state.phase == Phase::Destination,
        !state.force,
        found == ReplyView::Directory || found == ReplyView::Occupied,
    ensures
        state.after(found).request() == (RequestView::Failed {
            error: ErrorView::FileConflict { path: state.current().1 },
        }),
        state.after(found).after(later) == state.after(found),
{
}

/// An occupied destination with leave to overwrite is cleared first, and
/// then the source is renamed into its place.
pub proof fn lemma_conflict_with_force(state: RelocationView, found: ReplyView)
    requires
        state.well_formed(),
        state.phase == Phase::Destination,
        state.force,
        found == ReplyView::Directory || found == ReplyView::Occupied,
    ensures
        state.after(found).request() == (RequestView::RemoveDestination {
            path: state.current().1,
        }),
        state.after(found).after(ReplyView::Done).request() == (RequestView::Rename {
            from: state.current().0,
            to: state.current().1,
        }),
{
}

/// A rename that fails is followed by a copy of the same file. Only after
/// the copy succeeded is the source asked to be removed; a copy that fails
/// ends the run, and no reply leads on from there, so the source stays.
pub proof fn lemma_copy_fallback(
    state: RelocationView,
    renaming: Seq<char>,
    copying: Seq<char>,
    later: ReplyView,
)
    requires
        state.well_formed(),
        state.phase == Phase::Renaming,
    ensures
        ({
            let copy = state.after(ReplyView::Failed { cause: renaming });
            &&& copy.request() == (RequestView::Copy {
                from: state.current().0,
                to: state.current().1,
            })
            &&& copy.after(ReplyView::Done).request() == (RequestView::RemoveSource {
                path: state.current().0,
            })
            &&& copy.after(ReplyView::Failed { cause: copying }).request() == (RequestView::Failed {
                error: ErrorView::Filesystem {
                    context: copy_context(state.current().0, state.current().1, renaming),
                    cause: copying,
                },
            })
            &&& copy.after(ReplyView::Failed { cause: copying }).after(later) == copy.after(
                ReplyView::Failed { cause: copying },
            )
        }),
{
}

/// An upper bound on the requests that the buckets after bucket `b` can
/// take: two for each folder and five for each move.
pub open spec fn work_after(plan: Seq<BucketPlanView>, b: int) -> int
    decreases plan.len() - b,
{
    if b < 0 || b + 1 >= plan.len() {
        0
    } else {
        2 + 5 * plan[b + 1].moves.len() + work_after(plan, b + 1)
    }
}

impl RelocationView {
    /// An upper bound on the requests that the run can still make before it
    /// ends.
    pub open spec fn work_left(self) -> int {
        let later = work_after(self.plan, self.bucket);
        let open_moves = self.moves().len() - self.index;
        match self.phase {
            Phase::Folder => later + 5 * open_moves + 2,
            Phase::CreatingFolder => later + 5 * open_moves + 1,
            Phase::Destination => later + 5 * open_moves,
            Phase::Clearing => later + 5 * open_moves - 1,
            Phase::Renaming => later + 5 * open_moves - 2,
            Phase::Copying => later + 5 * open_moves - 3,
            Phase::RemovingSource => later + 5 * open_moves - 4,
            Phase::Preview => 1,
            Phase::Finished => 0,
            Phase::Failed => 0,
        }
    }
}

/// The bound on later work is never negative.
pub proof fn lemma_work_after_is_natural(plan: Seq<BucketPlanView>, b: int)
    ensures
        work_after(plan, b) >= 0,
    decreases plan.len() - b,
{
    if 0 <= b && b + 1 < plan.len() {
        lemma_work_after_is_natural(plan, b + 1);
    }
}

/// A run ends. Every reply that changes the state brings the run strictly
/// closer to its end, so a run of `n` buckets with `m` moves in all takes at
/// most `2 n + 5 m` replies that are not ignored.
pub proof fn lemma_reply_makes_progress(state: RelocationView, reply: ReplyView)
    requires
        state.well_formed(),
    ensures
        state.work_left() >= 0,
        state.after(reply) != state ==> state.after(reply).work_left() < state.work_left(),
{
    lemma_work_after_is_natural(state.plan, state.bucket);
    lemma_after_is_well_formed(state, reply);
    let next = state.after(reply);
    match state.phase {
        Phase::Folder | Phase::CreatingFolder => {
            lemma_skip_identities(state.moves(), 0);
        },
        Phase::Renaming | Phase::RemovingSource => {
            lemma_skip_identities(state.moves(), state.index + 1);
        },
        _ => {},
    }
    if next != state && next.phase == Phase::Folder && state.phase != Phase::Folder {
        lemma_work_after_is_natural(next.plan, next.bucket);
    }
}

/// A run in progress.
pub struct Relocation {
    plan: Vec<BucketPlan>,
    dry_run: bool,
    force: bool,
    bucket: usize,
    index: usize,
    phase: Phase,
    error: Option<RefolderError>,
    rename_cause: String,
    preview: String,
}

impl View for Relocation {
    type V = RelocationView;

    closed spec fn view(&self) -> RelocationView {
        RelocationView {
            plan: plan_view(self.plan@),
            dry_run: self.dry_run,
            force: self.force,
            bucket: self.bucket as int,
            index: self.index as int,
            phase: self.phase,
            error: match self.error {
                Some(error) => Some(error@),
                None => None,
            },
            rename_cause: self.rename_cause@,
            preview: self.preview@,
        }
    }
}

impl Relocation {
    /// Every run in progress is in a state that a run can be in.
    #[verifier::type_invariant]
    spec fn in_order(self) -> bool {
        self@.well_formed()
    }

    /// Begins a run of `plan`. With an empty plan the run is finished at
    /// once. A dry run asks for its preview to be shown, which is drawn from
    /// all moves of the plan; a real run asks for the first folder.
    pub fn start(plan: Vec<BucketPlan>, dry_run: bool, force: bool) -> (run: Relocation)
        ensures
            run@.well_formed(),
            run@ == RelocationView::initial(
                plan_view(plan@),
                dry_run,
                force,
                preview_of(all_moves_of(plan_view(plan@))),
            ),
    {
        let shown = dry_run && plan.len() > 0;
        let preview = if shown {
            let moves = all_moves(&plan);
            render_dry_run_preview(&moves)
        } else {
            String::new()
        };
        let phase = if plan.len() == 0 {
            Phase::Finished
        } else if dry_run {
            Phase::Preview
        } else {
            Phase::Folder
        };
        Relocation {
            plan,
            dry_run,
            force,
            bucket: 0,
            index: 0,
            phase,
            error: None,
            rename_cause: String::new(),
            preview,
        }
    }

    /// What the driver is to do next.
    pub fn request(&self) -> (request: Request)
        ensures
            self@.well_formed(),
            request@ == self@.request(),
    {
        proof {
            use_type_invariant(self);
        }
        match self.phase {
            Phase::Folder => Request::ProbeFolder { path: self.plan[self.bucket].folder.clone() },
            Phase::CreatingFolder => Request::CreateFolder {
                path: self.plan[self.bucket].folder.clone(),
            },
            Phase::Destination => Request::ProbeDestination {
                path: self.plan[self.bucket].moves[self.index].destination.clone(),
            },
            Phase::Clearing => Request::RemoveDestination {
                path: self.plan[self.bucket].moves[self.index].destination.clone(),
            },
            Phase::Renaming => Request::Rename {
                from: self.plan[self.bucket].moves[self.index].source.clone(),
                to: self.plan[self.bucket].moves[self.index].destination.clone(),
            },
            Phase::Copying => Request::Copy {
                from: self.plan[self.bucket].moves[self.index].source.clone(),
                to: self.plan[self.bucket].moves[self.index].destination.clone(),
            },
            Phase::RemovingSource => Request::RemoveSource {
                path: self.plan[self.bucket].moves[self.index].source.clone(),
            },
            Phase::Preview => Request::ShowPreview { text: self.preview.clone() },
            Phase::Finished => Request::Finished,
            Phase::Failed => match &self.error {
                Some(error) => Request::Failed { error: error.duplicate() },
                None => Request::Finished,
            },
        }
    }

    /// The same run, waiting for something else.
    fn turn_to(self, phase: Phase) -> (next: Relocation)
        requires
            self@.waiting_for(phase).well_formed(),
        ensures
            next@ == self@.waiting_for(phase),
    {
        Relocation { phase, ..self }
    }

    /// The run, ended with `error`.
    fn fail_with(self, error: RefolderError) -> (next: Relocation)
        requires
            self@.failing(error@).well_formed(),
        ensures
            next@ == self@.failing(error@),
    {
        Relocation { phase: Phase::Failed, error: Some(error), ..self }
    }

    /// The run, taking up the moves of the bucket at work from position
    /// `from`.
    fn enter(self, from: usize) -> (next: Relocation)
        requires
            !self@.dry_run,
            self@.error is None,
            0 <= self@.bucket < self@.plan.len(),
            from <= self@.moves().len(),
        ensures
            next@ == self@.entering(from as int),
            next@.well_formed(),
    {
        let ghost moves = self@.moves();
        let count = self.plan[self.bucket].moves.len();
        let mut next: usize = from;
        while next < count && self.plan[self.bucket].moves[next].source
            == self.plan[self.bucket].moves[next].destination
            invariant
                moves == self@.moves(),
                0 <= self@.bucket < self@.plan.len(),
                count == moves.len(),
                from <= next <= count,
                skip_identities(moves, from as int) == skip_identities(moves, next as int),
            decreases count - next,
        {
            assert(moves[next as int] == self.plan[self.bucket as int].moves[next as int]@);
            next += 1;
        }
        proof {
            lemma_skip_identities(moves, from as int);
            if next < count {
                assert(moves[next as int] == self.plan[self.bucket as int].moves[next as int]@);
            }
        }
        assert(self.bucket < self.plan.len());
        if next < count {
            Relocation { index: next, phase: Phase::Destination, ..self }
        } else if self.bucket + 1 < self.plan.len() {
            Relocation { bucket: self.bucket + 1, index: 0, phase: Phase::Folder, ..self }
        } else {
            Relocation { bucket: self.plan.len(), index: 0, phase: Phase::Finished, ..self }
        }
    }

    /// The run after the driver's report on the last request. A report that
    /// does not answer the request changes nothing.
    pub fn advance(self, reply: Reply) -> (next: Relocation)
        ensures
            self@.well_formed(),
            next@ == self@.after(reply@),
            next@.well_formed(),
    {
        proof {
            use_type_invariant(&self);
            lemma_after_is_well_formed(self@, reply@);
        }
        match self.phase {
            Phase::Folder => match reply {
                Reply::Absent => self.turn_to(Phase::CreatingFolder),
                Reply::Directory => self.enter(0),
                Reply::Occupied => {
                    let path = self.plan[self.bucket].folder.clone();
                    self.fail_with(RefolderError::FolderConflict { path })
                },
                _ => self,
            },
            Phase::CreatingFolder => match reply {
                Reply::Done => self.enter(0),
                Reply::Failed { cause } => {
                    let context = String::from_str("Failed to create directory ").concat(
                        self.plan[self.bucket].folder.as_str(),
                    );
                    self.fail_with(RefolderError::Filesystem { context, cause })
                },
                _ => self,
            },
            Phase::Destination => match reply {
                Reply::Absent => self.turn_to(Phase::Renaming),
                Reply::Directory | Reply::Occupied => {
                    if self.force {
                        self.turn_to(Phase::Clearing)
                    } else {
                        let path = self.plan[self.bucket].moves[self.index].destination.clone();
                        self.fail_with(RefolderError::FileConflict { path })
                    }
                },
                _ => self,
            },
            Phase::Clearing => match reply {
                Reply::Done => self.turn_to(Phase::Renaming),
                Reply::Failed { cause } => {
                    let context = String::from_str(
                        "Failed removing existing destination file ",
                    ).concat(self.plan[self.bucket].moves[self.index].destination.as_str());
                    self.fail_with(RefolderError::Filesystem { context, cause })
                },
                _ => self,
            },
            Phase::Renaming => match reply {
                Reply::Done => {
                    assert(self@.moves().len() == self.plan[self.bucket as int].moves.len());
                    let from = self.index + 1;
                    self.enter(from)
                },
                Reply::Failed { cause } => Relocation {
                    phase: Phase::Copying,
                    rename_cause: cause,
                    ..self
                },
                _ => self,
            },
            Phase::Copying => match reply {
                Reply::Done => self.turn_to(Phase::RemovingSource),
                Reply::Failed { cause } => {
                    let planned = &self.plan[self.bucket].moves[self.index];
                    let mut context = framed("Failed copying ", planned.source.as_str(), " to ");
                    context.append(planned.destination.as_str());
                    context.append(": ");
                    context.append(self.rename_cause.as_str());
                    proof {
                        assert(context@ =~= copy_context(
                            self@.current().0,
                            self@.current().1,
                            self@.rename_cause,
                        ));
                    }
                    self.fail_with(RefolderError::Filesystem { context, cause })
                },
                _ => self,
            },
            Phase::RemovingSource => match reply {
                Reply::Done => {
                    assert(self@.moves().len() == self.plan[self.bucket as int].moves.len());
                    let from = self.index + 1;
                    self.enter(from)
                },
                Reply::Failed { cause } => {
                    let context = String::from_str("Failed removing original file ").concat(
                        self.plan[self.bucket].moves[self.index].source.as_str(),
                    );
                    self.fail_with(RefolderError::Filesystem { context, cause })
                },
                _ => self,
            },
            Phase::Preview => match reply {
                Reply::Done => self.turn_to(Phase::Finished),
                _ => self,
            },
            Phase::Finished => self,
            Phase::Failed => self,
        }
    }
}

} // verus!
