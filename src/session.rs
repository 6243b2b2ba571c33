use vstd::prelude::*;
use crate::profiles::{
    is_new_profile_label, menu_options, name_check, names_view, new_profile_label, ProfileError,
};
use crate::slot::SlotMode;
use crate::swap::{
    adopt_plan, copy_swap_plan, link_swap_plan, plan_adopt, plan_copy_swap, plan_link_swap,
    plan_view, Choice, ChoiceV, Step, StepV, SwapError,
};

verus! {

/// Where a session stands: what it waits for next.
#[derive(Debug, Clone, Copy, PartialEq, Eq, Structural)]
pub enum Stage {
    /// A name for the unclaimed content of the slot.
    AdoptName,
    /// The adoption steps to be carried out.
    Adopted,
    /// The user's pick from the menu.
    Pick,
    /// A name for a new profile.
    NewName,
    /// The swap steps to be carried out.
    Swapped,
    /// Nothing: the run is over.
    Finished,
}

/// Which name a prompt asks for.
#[derive(Debug, Clone, Copy, PartialEq, Eq, Structural)]
pub enum Ask {
    /// The name under which the slot's current content is kept.
    AdoptName,
    /// The name of a profile to start empty.
    NewName,
}

/// What the session asks of its surroundings.
#[derive(Debug, Clone, PartialEq, Eq)]
pub enum Action {
    /// Prompt for a name.
    AskName(Ask),
    /// Let the user pick one of these options.
    AskProfile(Vec<String>),
    /// Carry out these steps, then report back.
    Perform(Vec<Step>),
    /// Tell the user why nothing more can be done, and stop.
    Refuse(SwapError),
    /// Start the game.
    Launch,
}

/// What the surroundings report back.
#[derive(Debug, Clone, PartialEq, Eq)]
pub enum Event {
    /// A name was entered.
    Name(String),
    /// A menu option was picked.
    Picked(String),
    /// The steps last asked for were carried out.
    Performed,
}

/// One run of the profile switcher, from the slot as found to the launch.
pub struct Session {
    /// Whether the slot is kept as a link to the active profile's archive.
    pub links: bool,
    pub slot: SlotMode,
    pub profiles: Vec<String>,
    pub stage: Stage,
}

/// Whether a session on this slot works in link mode: where links are
/// available, or where the slot already is one.
pub open spec fn link_mode(links: bool, slot: SlotMode) -> bool {
    links || slot is Link
}

/// The plan for the slot as found: in link mode the slot is linked, otherwise
/// it is swapped by copying.
pub open spec fn swap_plan(links: bool, slot: SlotMode, profiles: Seq<Seq<char>>, choice: ChoiceV) -> Result<
    Seq<StepV>,
    SwapError,
> {
    if link_mode(links, slot) {
        link_swap_plan(slot, profiles, choice)
    } else {
        copy_swap_plan(slot, profiles, choice)
    }
}

/// The event a stage waits for.
pub open spec fn expects(stage: Stage, event: Event) -> bool {
    match stage {
        Stage::AdoptName | Stage::NewName => event is Name,
        Stage::Pick => event is Picked,
        Stage::Adopted | Stage::Swapped => event is Performed,
        Stage::Finished => false,
    }
}

/// The action for a plan's outcome: the steps to perform, or the refusal; an
/// unusable name is asked for again.
pub open spec fn plan_action(
    planned: Result<Seq<StepV>, SwapError>,
    ask: Ask,
    r: Action,
    stage: Stage,
    next: Stage,
) -> bool {
    match planned {
        Ok(p) => r is Perform && plan_view(r->Perform_0@) == p && next == Stage::Swapped,
        Err(SwapError::InvalidInput) => r == Action::AskName(ask) && next == stage,
        Err(e) => r == Action::Refuse(e) && next == Stage::Finished,
    }
}

fn swap_steps(links: bool, slot: &SlotMode, profiles: &Vec<String>, choice: &Choice) -> (r: Result<
    Vec<Step>,
    SwapError,
>)
    ensures
        match swap_plan(links, *slot, names_view(profiles@), choice@) {
            Err(e) => r == Err::<Vec<Step>, SwapError>(e),
            Ok(p) => r is Ok && plan_view(r->Ok_0@) == p,
        },
{
    if links || matches!(slot, SlotMode::Link(_)) {
        plan_link_swap(slot, profiles, choice)
    } else {
        plan_copy_swap(slot, profiles, choice)
    }
}

fn planned_action(planned: Result<Vec<Step>, SwapError>, ask: Ask, stage: Stage) -> (r: (
    Action,
    Stage,
))
    ensures
        ({
            let pv = match planned {
                Ok(v) => Ok::<Seq<StepV>, SwapError>(plan_view(v@)),
                Err(e) => Err(e),
            };
            plan_action(pv, ask, r.0, stage, r.1)
        }),
{
    match planned {
        Ok(steps) => (Action::Perform(steps), Stage::Swapped),
        Err(SwapError::InvalidInput) => (Action::AskName(ask), stage),
        Err(e) => (Action::Refuse(e), Stage::Finished),
    }
}

impl Session {
    /// Opens a session on the slot as detected and the profiles listed, with
    /// `links` telling whether directory links are available. In link mode the
    /// menu is offered whatever the slot holds. In copy mode a missing slot
    /// ends the session, an unclaimed slot asks for a name to keep its content
    /// under, and a marked slot offers the menu.
    pub fn start(links: bool, slot: SlotMode, profiles: Vec<String>) -> (r: (Session, Action))
        ensures
            r.0.links == links,
            r.0.slot == slot,
            r.0.profiles == profiles,
            !link_mode(links, slot) && slot is Absent ==> r.1 == Action::Refuse(
                SwapError::NotFound,
            ) && r.0.stage == Stage::Finished,
            !link_mode(links, slot) && slot is CopyNoMarker ==> r.1 == Action::AskName(
                Ask::AdoptName,
            ) && r.0.stage == Stage::AdoptName,
            link_mode(links, slot) || slot is CopyWithMarker ==> r.0.stage == Stage::Pick
                && r.1 is AskProfile && names_view(r.1->AskProfile_0@) == names_view(
                profiles@,
            ).push(new_profile_label()),
    {
        let linking = links || matches!(slot, SlotMode::Link(_));
        if !linking && matches!(slot, SlotMode::Absent) {
            (
                Session { links, slot, profiles, stage: Stage::Finished },
                Action::Refuse(SwapError::NotFound),
            )
        } else if !linking && matches!(slot, SlotMode::CopyNoMarker) {
            (
                Session { links, slot, profiles, stage: Stage::AdoptName },
                Action::AskName(Ask::AdoptName),
            )
        } else {
            let menu = menu_options(&profiles);
            (Session { links, slot, profiles, stage: Stage::Pick }, Action::AskProfile(menu))
        }
    }

    /// Whether the session waits for this kind of event now.
    pub fn accepts(&self, event: &Event) -> (r: bool)
        ensures
            r == expects(self.stage, *event),
    {
        match self.stage {
            Stage::AdoptName | Stage::NewName => matches!(event, Event::Name(_)),
            Stage::Pick => matches!(event, Event::Picked(_)),
            Stage::Adopted | Stage::Swapped => matches!(event, Event::Performed),
            Stage::Finished => false,
        }
    }

    /// Takes what the surroundings report and says what to do next.
    pub fn handle(&mut self, event: Event) -> (r: Action)
        requires
            expects(old(self).stage, event),
        ensures
            old(self).stage == Stage::AdoptName ==> match name_check(
                names_view(old(self).profiles@),
                event->Name_0@,
            ) {
                Ok(_) => r is Perform && plan_view(r->Perform_0@) == adopt_plan(event->Name_0@)
                    && final(self).stage == Stage::Adopted && final(self).slot
                    is CopyWithMarker && final(self).slot->CopyWithMarker_0@ == event->Name_0@
                    && names_view(final(self).profiles@) == names_view(old(self).profiles@).push(
                    event->Name_0@,
                ),
                Err(ProfileError::InvalidInput) => r == Action::AskName(Ask::AdoptName)
                    && final(self).stage == Stage::AdoptName && final(self).slot == old(self).slot
                    && final(self).profiles == old(self).profiles,
                Err(ProfileError::AlreadyExists) => r == Action::Refuse(SwapError::AlreadyExists)
                    && final(self).stage == Stage::Finished && final(self).slot == old(self).slot
                    && final(self).profiles == old(self).profiles,
            },
            old(self).stage == Stage::Adopted ==> r is AskProfile && names_view(
                r->AskProfile_0@,
            ) == names_view(old(self).profiles@).push(new_profile_label()) && final(self).stage
                == Stage::Pick,
            old(self).stage == Stage::Pick && event->Picked_0@ == new_profile_label() ==> r
                == Action::AskName(Ask::NewName) && final(self).stage == Stage::NewName,
            old(self).stage == Stage::Pick && event->Picked_0@ != new_profile_label()
                ==> plan_action(
                swap_plan(
                    old(self).links,
                    old(self).slot,
                    names_view(old(self).profiles@),
                    ChoiceV::Existing(event->Picked_0@),
                ),
                Ask::NewName,
                r,
                Stage::Pick,
                final(self).stage,
            ),
            old(self).stage == Stage::NewName ==> plan_action(
                swap_plan(
                    old(self).links,
                    old(self).slot,
                    names_view(old(self).profiles@),
                    ChoiceV::Create(event->Name_0@),
                ),
                Ask::NewName,
                r,
                Stage::NewName,
                final(self).stage,
            ),
            old(self).stage == Stage::Swapped ==> r == Action::Launch && final(self).stage
                == Stage::Finished,
            old(self).stage != Stage::AdoptName ==> final(self).slot == old(self).slot
                && final(self).profiles == old(self).profiles,
            final(self).links == old(self).links,
    {
        match event {
            Event::Name(n) => {
                if self.stage == Stage::AdoptName {
                    match plan_adopt(&self.profiles, &n) {
                        Ok(steps) => {
                            self.profiles.push(n.clone());
                            self.slot = SlotMode::CopyWithMarker(n);
                            self.stage = Stage::Adopted;
                            Action::Perform(steps)
                        },
                        Err(SwapError::InvalidInput) => Action::AskName(Ask::AdoptName),
                        Err(e) => {
                            self.stage = Stage::Finished;
                            Action::Refuse(e)
                        },
                    }
                } else {
                    let planned = swap_steps(self.links, &self.slot, &self.profiles, &Choice::Create(n));
                    let (action, next) = planned_action(planned, Ask::NewName, self.stage);
                    self.stage = next;
                    action
                }
            },
            Event::Picked(c) => {
                if is_new_profile_label(c.as_str()) {
                    self.stage = Stage::NewName;
                    Action::AskName(Ask::NewName)
                } else {
                    let planned = swap_steps(self.links, &self.slot, &self.profiles, &Choice::Existing(c));
                    let (action, next) = planned_action(planned, Ask::NewName, self.stage);
                    self.stage = next;
                    action
                }
            },
            Event::Performed => {
                if self.stage == Stage::Adopted {
                    self.stage = Stage::Pick;
                    Action::AskProfile(menu_options(&self.profiles))
                } else {
                    self.stage = Stage::Finished;
                    Action::Launch
                }
            },
        }
    }
}

} // verus!
