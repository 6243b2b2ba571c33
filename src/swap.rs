use vstd::prelude::*;
use crate::marker::{has_marker_ext, marker_name};
use crate::profiles::{check_new_name, contains_name, name_check, names_view, ProfileError};
use crate::slot::SlotMode;

verus! {

/// A directory tree: each relative path, as its components, maps to the bytes
/// of a file, or to `None` for a directory.
pub type Tree = Map<Seq<Seq<char>>, Option<Seq<u8>>>;

/// What the slot's path holds.
pub enum Slot {
    Missing,
    /// A link to the archive directory of the named profile.
    Linked(Seq<char>),
    /// A real directory with this content.
    Holds(Tree),
}

/// The part of the file system the swap works on: the slot, and the archive
/// directory of each profile.
pub struct World {
    pub slot: Slot,
    pub archives: Map<Seq<char>, Tree>,
}

/// A file directly inside the tree whose name carries the marker extension.
pub open spec fn is_marker_key(t: Tree, k: Seq<Seq<char>>) -> bool {
    k.len() == 1 && has_marker_ext(k[0]) && t.contains_key(k) && t[k] is Some
}

/// The tree without its marker files.
pub open spec fn unmarked(t: Tree) -> Tree {
    Map::new(|k: Seq<Seq<char>>| t.contains_key(k) && !is_marker_key(t, k), |k: Seq<Seq<char>>| t[k])
}

/// The tree with its markers replaced by one empty marker file for `user`.
pub open spec fn marked(t: Tree, user: Seq<char>) -> Tree {
    unmarked(t).insert(seq![marker_name(user)], Some(Seq::empty()))
}

/// One operation on the file system, as the swap performs it.
#[derive(Debug, Clone, PartialEq, Eq)]
pub enum Step {
    /// Make an empty archive directory for a new profile.
    CreateProfile(String),
    /// Remove everything inside a profile's archive directory.
    ClearArchive(String),
    /// Copy the slot's content into a profile's empty archive.
    ArchiveSlot(String),
    /// Remove everything inside the slot.
    ClearSlot,
    /// Copy a profile's archive into the empty slot.
    RestoreSlot(String),
    /// Remove every marker in the slot and write the one of this profile.
    PlaceMarker(String),
    /// Remove the link at the slot's path.
    Unlink,
    /// Move the slot's real directory over a profile's archive.
    AdoptSlot(String),
    /// Make the slot's path a link to a profile's archive directory.
    LinkSlot(String),
}

/// The meaning of a [`Step`], with names as character sequences.
pub enum StepV {
    CreateProfile(Seq<char>),
    ClearArchive(Seq<char>),
    ArchiveSlot(Seq<char>),
    ClearSlot,
    RestoreSlot(Seq<char>),
    PlaceMarker(Seq<char>),
    Unlink,
    AdoptSlot(Seq<char>),
    LinkSlot(Seq<char>),
}

impl View for Step {
    type V = StepV;

    open spec fn view(&self) -> StepV {
        match self {
            Step::CreateProfile(n) => StepV::CreateProfile(n@),
            Step::ClearArchive(n) => StepV::ClearArchive(n@),
            Step::ArchiveSlot(n) => StepV::ArchiveSlot(n@),
            Step::ClearSlot => StepV::ClearSlot,
            Step::RestoreSlot(n) => StepV::RestoreSlot(n@),
            Step::PlaceMarker(n) => StepV::PlaceMarker(n@),
            Step::Unlink => StepV::Unlink,
            Step::AdoptSlot(n) => StepV::AdoptSlot(n@),
            Step::LinkSlot(n) => StepV::LinkSlot(n@),
        }
    }
}

/// The steps of a plan, as their meanings.
pub open spec fn plan_view(v: Seq<Step>) -> Seq<StepV> {
    v.map_values(|s: Step| s@)
}

/// The world after one step, or `None` where the step fails.
pub open spec fn apply(w: World, s: StepV) -> Option<World> {
    match s {
        StepV::CreateProfile(n) => if w.archives.contains_key(n) {
            None
        } else {
            Some(World { archives: w.archives.insert(n, Map::empty()), ..w })
        },
        StepV::ClearArchive(p) => if w.archives.contains_key(p) {
            Some(World { archives: w.archives.insert(p, Map::empty()), ..w })
        } else {
            None
        },
        StepV::ArchiveSlot(p) => match w.slot {
            Slot::Holds(t) => if w.archives.contains_key(p) && w.archives[p].is_empty() {
                Some(World { archives: w.archives.insert(p, t), ..w })
            } else {
                None
            },
            _ => None,
        },
        StepV::ClearSlot => match w.slot {
            Slot::Holds(_) => Some(World { slot: Slot::Holds(Map::empty()), ..w }),
            _ => None,
        },
        StepV::RestoreSlot(q) => match w.slot {
            Slot::Holds(t) => if t.is_empty() && w.archives.contains_key(q) {
                Some(World { slot: Slot::Holds(w.archives[q]), ..w })
            } else {
                None
            },
            _ => None,
        },
        StepV::PlaceMarker(q) => match w.slot {
            Slot::Holds(t) => Some(World { slot: Slot::Holds(marked(t, q)), ..w }),
            _ => None,
        },
        StepV::Unlink => match w.slot {
            Slot::Linked(_) => Some(World { slot: Slot::Missing, ..w }),
            _ => None,
        },
        StepV::AdoptSlot(p) => match w.slot {
            Slot::Holds(t) => Some(
                World { slot: Slot::Missing, archives: w.archives.insert(p, t) },
            ),
            _ => None,
        },
        StepV::LinkSlot(q) => match w.slot {
            Slot::Missing => if w.archives.contains_key(q) {
                Some(World { slot: Slot::Linked(q), ..w })
            } else {
                None
            },
            _ => None,
        },
    }
}

/// The world after a whole plan, or `None` where one of its steps fails.
pub open spec fn run(w: World, plan: Seq<StepV>) -> Option<World>
    decreases plan.len(),
{
    if plan.len() == 0 {
        Some(w)
    } else {
        match apply(w, plan[0]) {
            Some(v) => run(v, plan.drop_first()),
            None => None,
        }
    }
}

/// Why no plan could be made.
#[derive(Debug, Clone, Copy, PartialEq, Eq, Structural)]
pub enum SwapError {
    /// The chosen profile, or the game's slot, is not there.
    NotFound,
    /// A profile of the new name is already there.
    AlreadyExists,
    /// The new name is empty, reserved, or not usable as a file name.
    InvalidInput,
    /// The slot is a link where a real directory was expected.
    SlotIsLink,
    /// The slot holds data that no profile claims.
    UnclaimedSlot,
}

/// The swap error for a rejected profile name.
pub open spec fn name_error(e: ProfileError) -> SwapError {
    match e {
        ProfileError::InvalidInput => SwapError::InvalidInput,
        ProfileError::AlreadyExists => SwapError::AlreadyExists,
    }
}

/// What the user picked from the menu.
#[derive(Debug, Clone, PartialEq, Eq)]
pub enum Choice {
    /// A profile already in the archive.
    Existing(String),
    /// A new profile under this name.
    Create(String),
}

/// The meaning of a [`Choice`].
pub enum ChoiceV {
    Existing(Seq<char>),
    Create(Seq<char>),
}

impl View for Choice {
    type V = ChoiceV;

    open spec fn view(&self) -> ChoiceV {
        match self {
            Choice::Existing(n) => ChoiceV::Existing(n@),
            Choice::Create(n) => ChoiceV::Create(n@),
        }
    }
}

/// Saving the slot into the archive of `p`, its old copy cleared first.
pub open spec fn archive_plan(p: Seq<char>) -> Seq<StepV> {
    seq![StepV::ClearArchive(p), StepV::ArchiveSlot(p)]
}

/// Loading the archive of `q` into the slot and marking it as `q`'s.
pub open spec fn restore_plan(q: Seq<char>) -> Seq<StepV> {
    seq![StepV::ClearSlot, StepV::RestoreSlot(q), StepV::PlaceMarker(q)]
}

/// Starting a new, empty profile `n` in a slot just emptied.
pub open spec fn fresh_plan(n: Seq<char>) -> Seq<StepV> {
    seq![StepV::ClearSlot, StepV::CreateProfile(n), StepV::PlaceMarker(n)]
}

/// Claiming an unmarked slot's content as the new profile `n`.
pub open spec fn adopt_plan(n: Seq<char>) -> Seq<StepV> {
    seq![StepV::CreateProfile(n), StepV::PlaceMarker(n), StepV::ArchiveSlot(n)]
}

/// The copy-mode plan that takes the slot from the active profile to the choice.
pub open spec fn select_plan(active: Seq<char>, profiles: Seq<Seq<char>>, choice: ChoiceV) -> Result<
    Seq<StepV>,
    SwapError,
> {
    match choice {
        ChoiceV::Existing(q) => if q == active {
            Ok(Seq::empty())
        } else if !profiles.contains(q) {
            Err(SwapError::NotFound)
        } else {
            Ok(archive_plan(active) + restore_plan(q))
        },
        ChoiceV::Create(n) => match name_check(profiles, n) {
            Err(e) => Err(name_error(e)),
            Ok(_) => Ok(archive_plan(active) + fresh_plan(n)),
        },
    }
}

fn push_archive(plan: &mut Vec<Step>, p: &String)
    ensures
        plan_view(final(plan)@) == plan_view(old(plan)@) + archive_plan(p@),
{
    let ghost start = plan_view(plan@);
    plan.push(Step::ClearArchive(p.clone()));
    plan.push(Step::ArchiveSlot(p.clone()));
    assert(plan_view(plan@) =~= start + archive_plan(p@));
}

fn push_restore(plan: &mut Vec<Step>, q: &String)
    ensures
        plan_view(final(plan)@) == plan_view(old(plan)@) + restore_plan(q@),
{
    let ghost start = plan_view(plan@);
    plan.push(Step::ClearSlot);
    plan.push(Step::RestoreSlot(q.clone()));
    plan.push(Step::PlaceMarker(q.clone()));
    assert(plan_view(plan@) =~= start + restore_plan(q@));
}

/// The steps that save the slot into the archive of profile `p`.
pub fn plan_archive(p: &String) -> (r: Vec<Step>)
    ensures
        plan_view(r@) == archive_plan(p@),
{
    let mut r: Vec<Step> = Vec::new();
    assert(plan_view(r@) =~= Seq::<StepV>::empty());
    push_archive(&mut r, p);
    assert(Seq::<StepV>::empty() + archive_plan(p@) =~= archive_plan(p@));
    r
}

/// The steps that load the archive of profile `q` into the slot.
pub fn plan_restore(q: &String) -> (r: Vec<Step>)
    ensures
        plan_view(r@) == restore_plan(q@),
{
    let mut r: Vec<Step> = Vec::new();
    assert(plan_view(r@) =~= Seq::<StepV>::empty());
    push_restore(&mut r, q);
    assert(Seq::<StepV>::empty() + restore_plan(q@) =~= restore_plan(q@));
    r
}

/// The steps that claim an unmarked slot as the new profile `name`: the name
/// is checked against the profiles there, then the profile is created, marked
/// active, and its content saved to its archive.
pub fn plan_adopt(profiles: &Vec<String>, name: &String) -> (r: Result<Vec<Step>, SwapError>)
    ensures
        match name_check(names_view(profiles@), name@) {
            Err(e) => r == Err::<Vec<Step>, SwapError>(name_error(e)),
            Ok(_) => r is Ok && plan_view(r->Ok_0@) == adopt_plan(name@),
        },
{
    match check_new_name(profiles, name.as_str()) {
        Err(ProfileError::InvalidInput) => Err(SwapError::InvalidInput),
        Err(ProfileError::AlreadyExists) => Err(SwapError::AlreadyExists),
        Ok(()) => {
            let mut r: Vec<Step> = Vec::new();
            r.push(Step::CreateProfile(name.clone()));
            r.push(Step::PlaceMarker(name.clone()));
            r.push(Step::ArchiveSlot(name.clone()));
            assert(plan_view(r@) =~= adopt_plan(name@));
            Ok(r)
        },
    }
}

/// The copy-mode steps that make the chosen profile the active one, given the
/// profile the slot holds now. Choosing the active profile needs no step; any
/// other choice saves the slot to the active profile's archive first.
pub fn plan_select(active: &String, profiles: &Vec<String>, choice: &Choice) -> (r: Result<
    Vec<Step>,
    SwapError,
>)
    ensures
        match select_plan(active@, names_view(profiles@), choice@) {
            Err(e) => r == Err::<Vec<Step>, SwapError>(e),
            Ok(p) => r is Ok && plan_view(r->Ok_0@) == p,
        },
{
    match choice {
        Choice::Existing(q) => {
            if crate::text::same_text(q.as_str(), active.as_str()) {
                let r: Vec<Step> = Vec::new();
                assert(plan_view(r@) =~= Seq::<StepV>::empty());
                Ok(r)
            } else if !contains_name(profiles, q.as_str()) {
                Err(SwapError::NotFound)
            } else {
                let mut r = plan_archive(active);
                push_restore(&mut r, q);
                Ok(r)
            }
        },
        Choice::Create(n) => match check_new_name(profiles, n.as_str()) {
            Err(ProfileError::InvalidInput) => Err(SwapError::InvalidInput),
            Err(ProfileError::AlreadyExists) => Err(SwapError::AlreadyExists),
            Ok(()) => {
                let mut r = plan_archive(active);
                let ghost start = plan_view(r@);
                r.push(Step::ClearSlot);
                r.push(Step::CreateProfile(n.clone()));
                r.push(Step::PlaceMarker(n.clone()));
                assert(plan_view(r@) =~= start + fresh_plan(n@));
                Ok(r)
            },
        },
    }
}

/// The copy-mode plan for whatever occupies the slot: only a slot whose marker
/// names its profile can be swapped.
pub open spec fn copy_swap_plan(slot: SlotMode, profiles: Seq<Seq<char>>, choice: ChoiceV) -> Result<
    Seq<StepV>,
    SwapError,
> {
    match slot {
        SlotMode::Absent => Err(SwapError::NotFound),
        SlotMode::Link(_) => Err(SwapError::SlotIsLink),
        SlotMode::CopyNoMarker => Err(SwapError::UnclaimedSlot),
        SlotMode::CopyWithMarker(p) => select_plan(p@, profiles, choice),
    }
}

/// The copy-mode steps for the slot as detected; see [`plan_select`].
pub fn plan_copy_swap(slot: &SlotMode, profiles: &Vec<String>, choice: &Choice) -> (r: Result<
    Vec<Step>,
    SwapError,
>)
    ensures
        match copy_swap_plan(*slot, names_view(profiles@), choice@) {
            Err(e) => r == Err::<Vec<Step>, SwapError>(e),
            Ok(p) => r is Ok && plan_view(r->Ok_0@) == p,
        },
{
    match slot {
        SlotMode::Absent => Err(SwapError::NotFound),
        SlotMode::Link(_) => Err(SwapError::SlotIsLink),
        SlotMode::CopyNoMarker => Err(SwapError::UnclaimedSlot),
        SlotMode::CopyWithMarker(p) => plan_select(p, profiles, choice),
    }
}

/// The profile a choice makes active.
pub open spec fn choice_target(c: ChoiceV) -> Seq<char> {
    match c {
        ChoiceV::Existing(q) => q,
        ChoiceV::Create(n) => n,
    }
}

/// The steps a choice needs before its profile can be linked.
pub open spec fn creation(c: ChoiceV) -> Seq<StepV> {
    match c {
        ChoiceV::Existing(_) => Seq::empty(),
        ChoiceV::Create(n) => seq![StepV::CreateProfile(n)],
    }
}

/// The link-mode plan: the slot is repointed, never copied into. A real
/// directory still at the slot is first moved into the archive of the profile
/// its marker names, or of the new profile where it has no marker.
pub open spec fn link_swap_plan(slot: SlotMode, profiles: Seq<Seq<char>>, choice: ChoiceV) -> Result<
    Seq<StepV>,
    SwapError,
> {
    let target = choice_target(choice);
    let link = creation(choice).push(StepV::LinkSlot(target));
    if choice is Existing && !profiles.contains(target) {
        Err(SwapError::NotFound)
    } else if choice is Create && name_check(profiles, target) is Err {
        Err(name_error(name_check(profiles, target)->Err_0))
    } else {
        match slot {
            SlotMode::Absent => Ok(link),
            SlotMode::Link(t) => if choice is Existing && t@ == target {
                Ok(Seq::empty())
            } else {
                Ok(seq![StepV::Unlink] + link)
            },
            SlotMode::CopyWithMarker(u) => if choice is Create && u@ == target {
                Err(SwapError::AlreadyExists)
            } else {
                Ok(seq![StepV::AdoptSlot(u@)] + link)
            },
            SlotMode::CopyNoMarker => if choice is Create {
                Ok(seq![StepV::AdoptSlot(target), StepV::LinkSlot(target)])
            } else {
                Err(SwapError::UnclaimedSlot)
            },
        }
    }
}

/// The link-mode steps that make the chosen profile the one the slot links to.
pub fn plan_link_swap(slot: &SlotMode, profiles: &Vec<String>, choice: &Choice) -> (r: Result<
    Vec<Step>,
    SwapError,
>)
    ensures
        match link_swap_plan(*slot, names_view(profiles@), choice@) {
            Err(e) => r == Err::<Vec<Step>, SwapError>(e),
            Ok(p) => r is Ok && plan_view(r->Ok_0@) == p,
        },
{
    let (target, creating) = match choice {
        Choice::Existing(q) => (q, false),
        Choice::Create(n) => (n, true),
    };
    if !creating {
        if !contains_name(profiles, target.as_str()) {
            return Err(SwapError::NotFound);
        }
    } else {
        match check_new_name(profiles, target.as_str()) {
            Err(ProfileError::InvalidInput) => {
                return Err(SwapError::InvalidInput);
            },
            Err(ProfileError::AlreadyExists) => {
                return Err(SwapError::AlreadyExists);
            },
            Ok(()) => {},
        }
    }
    let mut r: Vec<Step> = Vec::new();
    match slot {
        SlotMode::Absent => {},
        SlotMode::Link(t) => {
            if !creating && crate::text::same_text(t.as_str(), target.as_str()) {
                assert(plan_view(r@) =~= Seq::<StepV>::empty());
                return Ok(r);
            }
            r.push(Step::Unlink);
        },
        SlotMode::CopyWithMarker(u) => {
            if creating && crate::text::same_text(u.as_str(), target.as_str()) {
                return Err(SwapError::AlreadyExists);
            }
            r.push(Step::AdoptSlot(u.clone()));
        },
        SlotMode::CopyNoMarker => {
            if !creating {
                return Err(SwapError::UnclaimedSlot);
            }
            r.push(Step::AdoptSlot(target.clone()));
            r.push(Step::LinkSlot(target.clone()));
            assert(plan_view(r@) =~= seq![StepV::AdoptSlot(target@), StepV::LinkSlot(target@)]);
            return Ok(r);
        },
    }
    let ghost start = plan_view(r@);
    if creating {
        r.push(Step::CreateProfile(target.clone()));
    }
    r.push(Step::LinkSlot(target.clone()));
    proof {
        let link = creation(choice@).push(StepV::LinkSlot(target@));
        assert(plan_view(r@) =~= start + link);
        if slot is Absent {
            assert(start =~= Seq::<StepV>::empty());
            assert(start + link =~= link);
        } else if slot is Link {
            assert(start =~= seq![StepV::Unlink]);
        } else {
            assert(start =~= seq![StepV::AdoptSlot(slot->CopyWithMarker_0@)]);
        }
    }
    Ok(r)
}

} // verus!
