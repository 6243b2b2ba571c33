use multi_horizon::slot::SlotMode;
use multi_horizon::swap::{
    plan_adopt, plan_archive, plan_copy_swap, plan_link_swap, plan_restore, plan_select, Choice,
    Step, SwapError,
};

fn s(x: &str) -> String {
    x.to_string()
}

fn names(v: &[&str]) -> Vec<String> {
    v.iter().map(|x| x.to_string()).collect()
}

#[test]
fn archive_then_restore_steps() {
    let mut plan = plan_archive(&s("amy"));
    plan.extend(plan_restore(&s("amy")));
    assert_eq!(
        plan,
        vec![
            Step::ClearArchive(s("amy")),
            Step::ArchiveSlot(s("amy")),
            Step::ClearSlot,
            Step::RestoreSlot(s("amy")),
            Step::PlaceMarker(s("amy")),
        ]
    );
}

#[test]
fn selecting_active_profile_does_nothing() {
    let profiles = names(&["amy", "bob"]);
    assert_eq!(plan_select(&s("amy"), &profiles, &Choice::Existing(s("amy"))), Ok(vec![]));
    let linked = SlotMode::Link(s("bob"));
    assert_eq!(plan_link_swap(&linked, &profiles, &Choice::Existing(s("bob"))), Ok(vec![]));
}

#[test]
fn swap_there_and_back() {
    let profiles = names(&["a", "b"]);
    let there = plan_select(&s("a"), &profiles, &Choice::Existing(s("b"))).unwrap();
    assert_eq!(
        there,
        vec![
            Step::ClearArchive(s("a")),
            Step::ArchiveSlot(s("a")),
            Step::ClearSlot,
            Step::RestoreSlot(s("b")),
            Step::PlaceMarker(s("b")),
        ]
    );
    let back = plan_select(&s("b"), &profiles, &Choice::Existing(s("a"))).unwrap();
    assert_eq!(
        back,
        vec![
            Step::ClearArchive(s("b")),
            Step::ArchiveSlot(s("b")),
            Step::ClearSlot,
            Step::RestoreSlot(s("a")),
            Step::PlaceMarker(s("a")),
        ]
    );
}

#[test]
fn copy_swap_ends_with_target_marker() {
    let profiles = names(&["a", "b"]);
    let slot = SlotMode::CopyWithMarker(s("a"));
    let plan = plan_copy_swap(&slot, &profiles, &Choice::Create(s("c"))).unwrap();
    assert_eq!(
        plan,
        vec![
            Step::ClearArchive(s("a")),
            Step::ArchiveSlot(s("a")),
            Step::ClearSlot,
            Step::CreateProfile(s("c")),
            Step::PlaceMarker(s("c")),
        ]
    );
    let plan = plan_copy_swap(&slot, &profiles, &Choice::Existing(s("b"))).unwrap();
    assert_eq!(plan.last(), Some(&Step::PlaceMarker(s("b"))));
}

#[test]
fn copy_swap_errors() {
    let profiles = names(&["a", "b"]);
    let choice = Choice::Existing(s("b"));
    assert_eq!(plan_copy_swap(&SlotMode::Absent, &profiles, &choice), Err(SwapError::NotFound));
    assert_eq!(
        plan_copy_swap(&SlotMode::Link(s("a")), &profiles, &choice),
        Err(SwapError::SlotIsLink)
    );
    assert_eq!(
        plan_copy_swap(&SlotMode::CopyNoMarker, &profiles, &choice),
        Err(SwapError::UnclaimedSlot)
    );
    let marked = SlotMode::CopyWithMarker(s("a"));
    assert_eq!(
        plan_copy_swap(&marked, &profiles, &Choice::Existing(s("zz"))),
        Err(SwapError::NotFound)
    );
    assert_eq!(
        plan_copy_swap(&marked, &profiles, &Choice::Create(s("New User"))),
        Err(SwapError::InvalidInput)
    );
}

#[test]
fn creating_existing_name_is_refused() {
    let profiles = names(&["a", "b"]);
    assert_eq!(
        plan_select(&s("a"), &profiles, &Choice::Create(s("b"))),
        Err(SwapError::AlreadyExists)
    );
    assert_eq!(
        plan_link_swap(&SlotMode::Absent, &profiles, &Choice::Create(s("a"))),
        Err(SwapError::AlreadyExists)
    );
    assert_eq!(plan_adopt(&profiles, &s("a")), Err(SwapError::AlreadyExists));
    assert_eq!(plan_adopt(&profiles, &s("")), Err(SwapError::InvalidInput));
}

#[test]
fn adopt_unmarked_slot() {
    let profiles = names(&["a"]);
    assert_eq!(
        plan_adopt(&profiles, &s("new")),
        Ok(vec![
            Step::CreateProfile(s("new")),
            Step::PlaceMarker(s("new")),
            Step::ArchiveSlot(s("new")),
        ])
    );
}

#[test]
fn link_swap_plans() {
    let profiles = names(&["a", "b"]);
    assert_eq!(
        plan_link_swap(&SlotMode::Link(s("a")), &profiles, &Choice::Existing(s("b"))),
        Ok(vec![Step::Unlink, Step::LinkSlot(s("b"))])
    );
    assert_eq!(
        plan_link_swap(&SlotMode::Absent, &profiles, &Choice::Create(s("c"))),
        Ok(vec![Step::CreateProfile(s("c")), Step::LinkSlot(s("c"))])
    );
    assert_eq!(
        plan_link_swap(&SlotMode::CopyWithMarker(s("a")), &profiles, &Choice::Existing(s("b"))),
        Ok(vec![Step::AdoptSlot(s("a")), Step::LinkSlot(s("b"))])
    );
    assert_eq!(
        plan_link_swap(&SlotMode::CopyWithMarker(s("c")), &profiles, &Choice::Create(s("c"))),
        Err(SwapError::AlreadyExists)
    );
    assert_eq!(
        plan_link_swap(&SlotMode::CopyNoMarker, &profiles, &Choice::Create(s("c"))),
        Ok(vec![Step::AdoptSlot(s("c")), Step::LinkSlot(s("c"))])
    );
    assert_eq!(
        plan_link_swap(&SlotMode::CopyNoMarker, &profiles, &Choice::Existing(s("a"))),
        Err(SwapError::UnclaimedSlot)
    );
    assert_eq!(
        plan_link_swap(&SlotMode::Absent, &profiles, &Choice::Existing(s("zz"))),
        Err(SwapError::NotFound)
    );
}
