use multi_horizon::session::{Action, Ask, Event, Session, Stage};
use multi_horizon::slot::SlotMode;
use multi_horizon::swap::{Step, SwapError};

fn s(x: &str) -> String {
    x.to_string()
}

fn names(v: &[&str]) -> Vec<String> {
    v.iter().map(|x| x.to_string()).collect()
}

#[test]
fn missing_slot_is_refused() {
    let (session, action) = Session::start(false, SlotMode::Absent, Vec::new());
    assert_eq!(action, Action::Refuse(SwapError::NotFound));
    assert_eq!(session.stage, Stage::Finished);
}

#[test]
fn unclaimed_slot_is_adopted_then_menu_offered() {
    let (mut session, action) = Session::start(false, SlotMode::CopyNoMarker, names(&["old"]));
    assert_eq!(action, Action::AskName(Ask::AdoptName));
    assert!(session.accepts(&Event::Name(s("x"))));
    assert!(!session.accepts(&Event::Performed));
    assert_eq!(session.handle(Event::Name(s(""))), Action::AskName(Ask::AdoptName));
    let action = session.handle(Event::Name(s("amy")));
    assert_eq!(
        action,
        Action::Perform(vec![
            Step::CreateProfile(s("amy")),
            Step::PlaceMarker(s("amy")),
            Step::ArchiveSlot(s("amy")),
        ])
    );
    assert_eq!(session.slot, SlotMode::CopyWithMarker(s("amy")));
    assert_eq!(
        session.handle(Event::Performed),
        Action::AskProfile(names(&["old", "amy", "New User"]))
    );
    assert_eq!(session.stage, Stage::Pick);
}

#[test]
fn adopting_taken_name_is_refused() {
    let (mut session, _) = Session::start(false, SlotMode::CopyNoMarker, names(&["amy"]));
    assert_eq!(session.handle(Event::Name(s("amy"))), Action::Refuse(SwapError::AlreadyExists));
    assert_eq!(session.stage, Stage::Finished);
}

#[test]
fn pick_existing_swaps_then_launches() {
    let slot = SlotMode::CopyWithMarker(s("a"));
    let (mut session, action) = Session::start(false, slot, names(&["a", "b"]));
    assert_eq!(action, Action::AskProfile(names(&["a", "b", "New User"])));
    let action = session.handle(Event::Picked(s("b")));
    assert_eq!(
        action,
        Action::Perform(vec![
            Step::ClearArchive(s("a")),
            Step::ArchiveSlot(s("a")),
            Step::ClearSlot,
            Step::RestoreSlot(s("b")),
            Step::PlaceMarker(s("b")),
        ])
    );
    assert_eq!(session.handle(Event::Performed), Action::Launch);
    assert_eq!(session.stage, Stage::Finished);
}

#[test]
fn pick_active_profile_performs_nothing() {
    let (mut session, _) = Session::start(false, SlotMode::CopyWithMarker(s("a")), names(&["a"]));
    assert_eq!(session.handle(Event::Picked(s("a"))), Action::Perform(vec![]));
}

#[test]
fn new_profile_reprompts_on_bad_name() {
    let (mut session, _) = Session::start(false, SlotMode::CopyWithMarker(s("a")), names(&["a"]));
    assert_eq!(session.handle(Event::Picked(s("New User"))), Action::AskName(Ask::NewName));
    assert_eq!(session.handle(Event::Name(s("New User"))), Action::AskName(Ask::NewName));
    assert_eq!(session.stage, Stage::NewName);
    assert_eq!(session.handle(Event::Name(s("a"))), Action::Refuse(SwapError::AlreadyExists));
}

#[test]
fn linked_slot_is_repointed() {
    let (mut session, _) = Session::start(false, SlotMode::Link(s("a")), names(&["a", "b"]));
    assert_eq!(
        session.handle(Event::Picked(s("b"))),
        Action::Perform(vec![Step::Unlink, Step::LinkSlot(s("b"))])
    );
}

#[test]
fn link_mode_offers_menu_and_links_target() {
    let (mut session, action) = Session::start(true, SlotMode::Absent, names(&["a"]));
    assert_eq!(action, Action::AskProfile(names(&["a", "New User"])));
    assert_eq!(session.handle(Event::Picked(s("a"))), Action::Perform(vec![Step::LinkSlot(s("a"))]));
    let (mut session, _) = Session::start(true, SlotMode::CopyWithMarker(s("a")), names(&["a"]));
    assert_eq!(
        session.handle(Event::Picked(s("a"))),
        Action::Perform(vec![Step::AdoptSlot(s("a")), Step::LinkSlot(s("a"))])
    );
}
