use vstd::prelude::*;
use crate::marker::{has_marker_ext, marker_user, user_of};
use crate::profiles::Listed;

verus! {

/// What occupies the slot the game reads its saves from.
#[derive(Debug, Clone, PartialEq, Eq)]
pub enum SlotMode {
    /// There is nothing at the slot's path.
    Absent,
    /// The slot is a link to the named profile's archive directory.
    Link(String),
    /// The slot is a real directory that names no profile.
    CopyNoMarker,
    /// The slot is a real directory whose marker names this profile.
    CopyWithMarker(String),
}

/// The user named by the first marker file among the slot's entries, if any.
pub open spec fn first_marker_user(children: Seq<Listed>) -> Option<Seq<char>>
    decreases children.len(),
{
    if children.len() == 0 {
        None
    } else if !children[0].is_dir && has_marker_ext(children[0].name@) {
        Some(user_of(children[0].name@))
    } else {
        first_marker_user(children.drop_first())
    }
}

/// Finds the profile that the slot's markers name: the first marker file
/// among the slot's entries, in listing order; directories never count.
pub fn active_user(children: &Vec<Listed>) -> (r: Option<String>)
    ensures
        r is Some <==> first_marker_user(children@) is Some,
        r is Some ==> r->0@ == first_marker_user(children@)->0,
{
    let ghost all = children@;
    let n = children.len();
    let mut i: usize = 0;
    assert(all.subrange(0, n as int) =~= all);
    while i < n
        invariant
            n == children@.len(),
            all == children@,
            i <= n,
            first_marker_user(all) == first_marker_user(all.subrange(i as int, n as int)),
        decreases n - i,
    {
        let ghost rest = all.subrange(i as int, n as int);
        assert(rest.drop_first() =~= all.subrange(i + 1, n as int));
        assert(rest[0] == children@[i as int]);
        if !children[i].is_dir {
            match marker_user(children[i].name.as_str()) {
                Some(u) => {
                    return Some(u);
                },
                None => {},
            }
        }
        i = i + 1;
    }
    None
}

/// Works out what occupies the slot from what is found at its path: whether
/// anything is there, the profile it links to if it is a link, and otherwise
/// the entries directly inside it.
pub fn detect_slot(exists: bool, link_target: Option<String>, children: &Vec<Listed>) -> (r:
    SlotMode)
    ensures
        !exists ==> r is Absent,
        exists && link_target is Some ==> (r is Link && r->Link_0@ == link_target->0@),
        exists && link_target is None && first_marker_user(children@) is None ==> r is CopyNoMarker,
        exists && link_target is None && first_marker_user(children@) is Some ==> (
        r is CopyWithMarker && r->CopyWithMarker_0@ == first_marker_user(children@)->0),
{
    if !exists {
        return SlotMode::Absent;
    }
    match link_target {
        Some(t) => SlotMode::Link(t),
        None => match active_user(children) {
            Some(u) => SlotMode::CopyWithMarker(u),
            None => SlotMode::CopyNoMarker,
        },
    }
}

} // verus!
