//! Rendering anew after an edit: the whole of what is played, or, where that
//! gives the same sound, the edited pattern alone.

use vstd::prelude::*;

use crate::compile;
use crate::curve;
use crate::curve::Curve;
use crate::editor::{Editor, EditorModel, PlayScope};
use crate::mixer;
use crate::mixer::RenderError;
use crate::patch;
use crate::pattern::{PatternError, PatternFault};
use crate::piece::{Piece, PieceModel, SampleModel};
use crate::sample;
use crate::sample::LoadFault;
use crate::session;
use crate::session::{splice, Placement};
use crate::single::Single;
use crate::song;
use crate::table;

verus! {

/// What is rendered after an edit.
pub enum EditPlan {
    /// The piece is all that is played.
    Whole(Piece),
    /// The piece goes into its place in what is played.
    Part(Piece, Placement),
}

impl EditPlan {
    /// The piece that is rendered.
    pub open spec fn target(self) -> Piece {
        match self {
            EditPlan::Whole(piece) => piece,
            EditPlan::Part(piece, _) => piece,
        }
    }

    /// What is played when the plan has been carried out, with the samples of
    /// its piece at hand; nothing where a part does not line up with its
    /// place.
    pub open spec fn outcome(
        self,
        m: spec_fn(Curve) -> Single,
        buffer: Seq<Single>,
        bank: Map<Seq<char>, Seq<Single>>,
    ) -> Option<Seq<Single>> {
        let made = mixer::rendered(m, self.target()@, bank);
        match self {
            EditPlan::Whole(_) => Some(made),
            EditPlan::Part(_, place) => if session::fits(
                buffer,
                made,
                place.start_frame,
                place.len_frames,
            ) {
                Some(session::patched(buffer, made, place.start_frame))
            } else {
                None
            },
        }
    }

    /// The piece that is rendered.
    pub fn piece(&self) -> (r: &Piece)
        ensures
            *r == self.target(),
    {
        match self {
            EditPlan::Whole(piece) => piece,
            EditPlan::Part(piece, _) => piece,
        }
    }

    /// Carries the plan out on what has been played so far, given the bytes of
    /// the sample files of its piece.
    pub fn carry_out<F: Fn(Curve) -> Single>(&self, buffer: &Vec<Single>, files: &Vec<Vec<u8>>, f: &F) -> (r: Result<
        Option<Vec<Single>>,
        RenderError,
    >)
        requires
            curve::accepts(*f),
            2 * self.target().duration_samples <= usize::MAX,
            files@.len() == self.target().samples.order().len(),
        ensures
            ({
                let piece = self.target();
                let bank = sample::bank_of(
                    piece.samples.order(),
                    piece.samples@,
                    sample::contents(files@),
                    files@.len() as int,
                );
                match r {
                    Ok(made) => {
                        &&& piece@.valid() && bank is Ok
                        &&& forall|m: spec_fn(Curve) -> Single| #[trigger]
                            curve::follows(*f, m) ==> (match made {
                                Some(buf) => Some(buf@),
                                None => None,
                            }) == self.outcome(m, buffer@, bank->Ok_0)
                        &&& forall|disk: spec_fn(Seq<char>) -> Seq<u8>|
                            reads(disk, piece, files@) ==> #[trigger] read_from(
                                disk,
                                piece@.samples,
                                bank->Ok_0,
                            )
                    },
                    Err(RenderError::Validation(e)) => !piece@.valid() && piece@.judged(Some(e@)),
                    Err(RenderError::SampleLoad(e)) => piece@.valid() && bank is Err && e@ == bank->Err_0,
                    Err(RenderError::MissingVoice(_, _)) => false,
                }
            }),
    {
        let count: usize = self.piece().samples.len();
        let made: Vec<Single> = match mixer::render_with_dir(self.piece(), files, f) {
            Ok(made) => made,
            Err(e) => {
                return Err(e);
            },
        };
        proof {
            let piece = self.target();
            let order = piece.samples.order();
            let held = sample::contents(files@);
            assert(count == order.len());
            assert forall|disk: spec_fn(Seq<char>) -> Seq<u8>| reads(disk, piece, files@) implies #[trigger] read_from(
                disk,
                piece@.samples,
                sample::bank_of(order, piece.samples@, held, files@.len() as int)->Ok_0,
            ) by {
                law_bank_is_read_from_disk(disk, order, piece.samples@, held);
            }
        }
        match self {
            EditPlan::Whole(_) => Ok(Some(made)),
            EditPlan::Part(_, place) => Ok(splice(buffer, &made, place.start_frame, place.len_frames)),
        }
    }
}

/// Whether a plan is the one for an edit: in song scope the part, with its
/// place, where it sounds there as it does by itself; else all that is played.
pub open spec fn planned(e: EditorModel, sr: u32, plan: EditPlan) -> bool {
    let song = e.song.at_rate(sr).draft();
    let own = e.cur().at_rate(sr).draft(1);
    match plan {
        EditPlan::Part(piece, place) => {
            &&& e.play_scope == PlayScope::Song
            &&& song is Ok && patch::at_home(own->Ok_0, song->Ok_0, e.current == 0)
            &&& own == Ok::<PieceModel, PatternFault>(piece@)
            &&& place == e.song.placement(sr, e.current)
        },
        EditPlan::Whole(piece) => match e.play_scope {
            PlayScope::Song => {
                &&& song == Ok::<PieceModel, song::Stop>(piece@)
                &&& !patch::at_home(own->Ok_0, song->Ok_0, e.current == 0)
            },
            PlayScope::Pattern => own == Ok::<PieceModel, PatternFault>(piece@) && piece@.valid(),
        },
    }
}

impl Editor {
    /// Plans what to render after a cell edit: in song scope the edited
    /// pattern alone, where it sounds in its place as it does by itself.
    pub fn plan_edit(&self, sr: u32) -> (r: Result<EditPlan, PatternError>)
        requires
            self@.sound(),
        ensures
            ({
                let song = self@.song.at_rate(sr).draft();
                let own = self@.cur().at_rate(sr).draft(1);
                match r {
                    Ok(plan) => planned(self@, sr, plan),
                    Err(e) => match self.play_scope {
                        PlayScope::Pattern => compile::settles(
                            own,
                            Err::<PieceModel, PatternFault>(e@),
                        ),
                        PlayScope::Song => song::settles(
                            song,
                            Err::<PieceModel, PatternFault>(e@),
                        ),
                    },
                }
            }),
    {
        if self.play_scope == PlayScope::Song && self.splices_exactly(sr) {
            proof {
                let s = self@.song.at_rate(sr);
                song::lemma_pattern_of_song(s, self@.current);
                assert(s.patterns[self@.current] == self@.cur().at_rate(sr));
            }
            let layout: Vec<Placement> = self.layout(sr);
            let place: Placement = layout[self.current];
            match self.compile_pattern(sr) {
                Ok(piece) => Ok(EditPlan::Part(piece, place)),
                Err(e) => Err(e),
            }
        } else {
            match self.compile_scope(sr) {
                Ok(piece) => Ok(EditPlan::Whole(piece)),
                Err(e) => Err(e),
            }
        }
    }
}

/// Whether a list of files is what a disk holds of the sample files of a
/// piece, in the order of its table of samples.
pub open spec fn reads(disk: spec_fn(Seq<char>) -> Seq<u8>, piece: Piece, files: Seq<Vec<u8>>) -> bool {
    let order = piece.samples.order();
    &&& files.len() == order.len()
    &&& forall|i: int|
        0 <= i < order.len() ==> sample::contents(files)[i] == disk(
            piece.samples@[#[trigger] order[i]].path,
        )
}

/// Whether a bank holds exactly the samples that some references name, read
/// from the files of a disk.
pub open spec fn read_from(
    disk: spec_fn(Seq<char>) -> Seq<u8>,
    refs: Map<Seq<char>, SampleModel>,
    bank: Map<Seq<char>, Seq<Single>>,
) -> bool {
    &&& bank.dom() == refs.dom()
    &&& forall|id: Seq<char>| #[trigger]
        refs.dom().contains(id) ==> refs[id].loaded(id, disk(refs[id].path)) == Ok::<
            Seq<Single>,
            LoadFault,
        >(bank[id])
}

proof fn lemma_bank(
    disk: spec_fn(Seq<char>) -> Seq<u8>,
    order: Seq<Seq<char>>,
    refs: Map<Seq<char>, SampleModel>,
    files: Seq<Seq<u8>>,
    n: int,
)
    requires
        0 <= n <= order.len(),
        forall|i: int| 0 <= i < order.len() ==> files[i] == disk(refs[#[trigger] order[i]].path),
        sample::bank_of(order, refs, files, n) is Ok,
    ensures
        ({
            let bank = sample::bank_of(order, refs, files, n)->Ok_0;
            &&& forall|i: int| 0 <= i < n ==> bank.dom().contains(#[trigger] order[i])
            &&& forall|id: Seq<char>| #[trigger]
                bank.dom().contains(id) ==> {
                    &&& exists|i: int| 0 <= i < n && #[trigger] order[i] == id
                    &&& refs[id].loaded(id, disk(refs[id].path)) == Ok::<Seq<Single>, LoadFault>(bank[id])
                }
        }),
    decreases n,
{
    if n > 0 {
        lemma_bank(disk, order, refs, files, n - 1);
        let before = sample::bank_of(order, refs, files, n - 1)->Ok_0;
        let bank = sample::bank_of(order, refs, files, n)->Ok_0;
        let name = order[n - 1];
        assert forall|id: Seq<char>| #[trigger] bank.dom().contains(id) implies {
            &&& exists|i: int| 0 <= i < n && #[trigger] order[i] == id
            &&& refs[id].loaded(id, disk(refs[id].path)) == Ok::<Seq<Single>, LoadFault>(bank[id])
        } by {
            if id == name {
                assert(order[n - 1] == id);
            } else {
                assert(before.dom().contains(id));
                let i = choose|i: int| 0 <= i < n - 1 && #[trigger] order[i] == id;
                assert(0 <= i < n && order[i] == id);
            }
        }
    }
}

/// Loading the files of a disk gives what the references name on that disk.
pub proof fn law_bank_is_read_from_disk(
    disk: spec_fn(Seq<char>) -> Seq<u8>,
    order: Seq<Seq<char>>,
    refs: Map<Seq<char>, SampleModel>,
    files: Seq<Seq<u8>>,
)
    requires
        table::lists(order, refs),
        forall|i: int| 0 <= i < order.len() ==> files[i] == disk(refs[#[trigger] order[i]].path),
        sample::bank_of(order, refs, files, order.len() as int) is Ok,
    ensures
        read_from(disk, refs, sample::bank_of(order, refs, files, order.len() as int)->Ok_0),
{
    let n = order.len() as int;
    let bank = sample::bank_of(order, refs, files, n)->Ok_0;
    lemma_bank(disk, order, refs, files, n);
    assert forall|id: Seq<char>| #[trigger] refs.dom().contains(id) implies bank.dom().contains(id) by {
        let i = choose|i: int| 0 <= i < order.len() && #[trigger] order[i] == id;
        assert(bank.dom().contains(order[i]));
    }
    assert forall|id: Seq<char>| #[trigger] bank.dom().contains(id) implies refs.dom().contains(id) by {
        let i = choose|i: int| 0 <= i < n && #[trigger] order[i] == id;
        assert(refs.dom().contains(order[i]));
    }
    assert(bank.dom() =~= refs.dom());
}

/// Pieces that are loaded from one disk are loaded alike.
proof fn lemma_loaded_alike(
    disk: spec_fn(Seq<char>) -> Seq<u8>,
    q: PieceModel,
    own: Map<Seq<char>, Seq<Single>>,
    p: PieceModel,
    bank: Map<Seq<char>, Seq<Single>>,
)
    requires
        read_from(disk, q.samples, own),
        read_from(disk, p.samples, bank),
    ensures
        patch::loaded_alike(q, own, p, bank),
{
    assert forall|id: Seq<char>| #[trigger]
        q.samples.dom().contains(id) && p.samples.dom().contains(id) && patch::same_part(
            q.samples[id],
            p.samples[id],
        ) implies {
        &&& own.dom().contains(id) == bank.dom().contains(id)
        &&& own.dom().contains(id) ==> own[id] == bank[id]
    } by {
        let a = q.samples[id];
        let b = p.samples[id];
        assert(a.loaded(id, disk(a.path)) == Ok::<Seq<Single>, LoadFault>(own[id]));
        assert(b.loaded(id, disk(b.path)) == Ok::<Seq<Single>, LoadFault>(bank[id]));
    }
}

/// After a cell edit in song scope, the plan gives the sound that rendering
/// the whole song would give. What has been played so far is the song as it
/// was before the edit, and the samples are read from one disk.
pub proof fn law_planned_edit_is_a_full_render(
    m: spec_fn(Curve) -> Single,
    disk: spec_fn(Seq<char>) -> Seq<u8>,
    before: EditorModel,
    after: EditorModel,
    sr: u32,
    plan: EditPlan,
    bank: Map<Seq<char>, Seq<Single>>,
    own: Map<Seq<char>, Seq<Single>>,
)
    requires
        before.sound(),
        patch::cells_edited(before, after),
        before.song.at_rate(sr).draft() is Ok,
        after.song.at_rate(sr).draft() is Ok,
        after.play_scope == PlayScope::Song,
        planned(after, sr, plan),
        read_from(disk, before.song.at_rate(sr).draft()->Ok_0.samples, bank),
        read_from(disk, plan.target()@.samples, own),
    ensures
        read_from(disk, after.song.at_rate(sr).draft()->Ok_0.samples, bank),
        plan.outcome(m, mixer::rendered(m, before.song.at_rate(sr).draft()->Ok_0, bank), own) == Some(
            mixer::rendered(m, after.song.at_rate(sr).draft()->Ok_0, bank),
        ),
{
    let i = before.current;
    let t = after.song.at_rate(sr).draft()->Ok_0;
    patch::lemma_same_voices(before.song, after.song, sr, i);
    if plan is Part {
        lemma_loaded_alike(disk, plan.target()@, own, t, bank);
        assert(after.song.patterns[i].at_rate(sr) == after.cur().at_rate(sr));
        patch::law_edit_is_spliced_exactly(m, before.song, after.song, sr, bank, own, i);
    } else {
        assert forall|id: Seq<char>| bank.dom().contains(id) implies #[trigger] own[id] == bank[id] by {
            assert(t.samples.dom().contains(id));
        }
        assert(own =~= bank);
    }
}

} // verus!
