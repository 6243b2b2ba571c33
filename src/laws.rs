use vstd::prelude::*;
use crate::marker::{has_marker_ext, marker_ext, marker_name};
use crate::profiles::{name_check, valid_profile_name, ProfileError};
use crate::profiles::Listed;
use crate::slot::SlotMode;
use crate::walk::{
    below, copy_measure, copy_ops, copy_order, copy_progress, distinct_names, covers, lists_children, nested_visits, ops_result,
    removal_progress, remove_ops, subdirs, tree_ok, VisitV,
};
use crate::swap::{
    apply, archive_plan, choice_target, copy_swap_plan, creation, fresh_plan, is_marker_key,
    link_swap_plan, marked, restore_plan, run, select_plan, unmarked, ChoiceV, Slot, StepV, SwapError,
    Tree, World,
};

verus! {

/// The marker files of `t` are exactly one: the marker of `user`.
pub open spec fn marks_only(t: Tree, user: Seq<char>) -> bool {
    forall|k: Seq<Seq<char>>| #[trigger] is_marker_key(t, k) <==> k == seq![marker_name(user)]
}

/// The slot is a real directory whose markers are exactly the one of `user`.
pub open spec fn slot_marked_for(s: Slot, user: Seq<char>) -> bool {
    s is Holds && marks_only(s->Holds_0, user)
}

/// The marker file name of a non-empty name carries the marker extension.
pub proof fn lemma_marker_name_is_marker(user: Seq<char>)
    requires
        user.len() > 0,
    ensures
        has_marker_ext(marker_name(user)),
{
    let m = marker_name(user);
    let i = user.len() as int;
    assert(m[i] == '.');
    assert(m.subrange(i + 1, m.len() as int) =~= marker_ext());
}

/// Placing the marker of a non-empty name leaves it the only marker.
pub proof fn lemma_marked_marks_only(t: Tree, user: Seq<char>)
    requires
        user.len() > 0,
    ensures
        marks_only(marked(t, user), user),
{
    lemma_marker_name_is_marker(user);
    assert(is_marker_key(marked(t, user), seq![marker_name(user)]));
}

/// Replacing the only marker of a tree by the same empty marker gives the tree.
proof fn lemma_marked_again(t: Tree, user: Seq<char>)
    requires
        marks_only(t, user),
        t[seq![marker_name(user)]] == Some(Seq::<u8>::empty()),
    ensures
        marked(t, user) == t,
{
    assert(is_marker_key(t, seq![marker_name(user)]));
    assert forall|k| #[trigger] t.contains_key(k) && k != seq![marker_name(user)] implies !is_marker_key(
        t,
        k,
    ) by {}
    assert(marked(t, user) =~= t);
}

/// Running two plans one after the other is running their concatenation.
pub proof fn lemma_run_append(w: World, a: Seq<StepV>, b: Seq<StepV>)
    ensures
        run(w, a + b) == (match run(w, a) {
            Some(v) => run(v, b),
            None => None,
        }),
    decreases a.len(),
{
    if a.len() == 0 {
        assert(a + b =~= b);
    } else {
        assert((a + b).drop_first() =~= a.drop_first() + b);
        assert((a + b)[0] == a[0]);
        match apply(w, a[0]) {
            Some(v) => lemma_run_append(v, a.drop_first(), b),
            None => {},
        }
    }
}

proof fn lemma_run_two(w: World, x: StepV, y: StepV)
    ensures
        run(w, seq![x, y]) == (match apply(w, x) {
            Some(v) => apply(v, y),
            None => None,
        }),
{
    assert(seq![x, y].drop_first() =~= seq![y]);
    assert(seq![y].drop_first() =~= Seq::<StepV>::empty());
    match apply(w, x) {
        Some(v) => {
            assert(run(v, seq![y]) == (match apply(v, y) {
                Some(u) => run(u, Seq::<StepV>::empty()),
                None => None,
            }));
        },
        None => {},
    }
}

proof fn lemma_run_three(w: World, x: StepV, y: StepV, z: StepV)
    ensures
        run(w, seq![x, y, z]) == (match apply(w, x) {
            Some(v) => run(v, seq![y, z]),
            None => None,
        }),
{
    assert(seq![x, y, z].drop_first() =~= seq![y, z]);
}

/// A name accepted for a new profile is afterwards listed exactly once: creating
/// it succeeds, and the profiles are then the old ones and the new name, with
/// no name twice.
pub proof fn lemma_created_profile_listed_once(w: World, profiles: Seq<Seq<char>>, n: Seq<char>)
    requires
        profiles.no_duplicates(),
        profiles.to_set() == w.archives.dom(),
        name_check(profiles, n) is Ok,
    ensures
        apply(w, StepV::CreateProfile(n)) is Some,
        apply(w, StepV::CreateProfile(n))->Some_0.archives.dom() == profiles.push(n).to_set(),
        profiles.push(n).no_duplicates(),
{
    assert(!profiles.contains(n));
    assert(!w.archives.dom().contains(n));
    let grown = profiles.push(n);
    assert(grown.to_set() =~= profiles.to_set().insert(n)) by {
        assert forall|x| #[trigger] grown.contains(x) <==> (profiles.contains(x) || x == n) by {
            if grown.contains(x) {
                let i = choose|i: int| 0 <= i < grown.len() && grown[i] == x;
                if i < profiles.len() {
                    assert(profiles[i] == x);
                }
            }
            if profiles.contains(x) {
                let i = choose|i: int| 0 <= i < profiles.len() && profiles[i] == x;
                assert(grown[i] == x);
            }
            if x == n {
                assert(grown[profiles.len() as int] == x);
            }
        }
    }
    assert forall|i: int, j: int| 0 <= i < grown.len() && 0 <= j < grown.len() && i != j implies grown[i]
        != grown[j] by {
        if i < profiles.len() && j < profiles.len() {
        } else if i < profiles.len() {
            assert(profiles.contains(grown[i]));
        } else {
            assert(profiles.contains(grown[j]));
        }
    }
}

/// Saving the active profile's slot to its archive and loading it back gives
/// the same slot, byte for byte, and leaves the archive holding the content
/// as the slot was.
pub proof fn lemma_archive_restore_round_trip(w: World, p: Seq<char>)
    requires
        p.len() > 0,
        w.archives.contains_key(p),
        slot_marked_for(w.slot, p),
        w.slot->Holds_0[seq![marker_name(p)]] == Some(Seq::<u8>::empty()),
    ensures
        run(w, archive_plan(p) + restore_plan(p)) is Some,
        run(w, archive_plan(p) + restore_plan(p))->Some_0.slot == w.slot,
        w.slot == Slot::Holds(run(w, archive_plan(p) + restore_plan(p))->Some_0.archives[p]),
{
    let t = w.slot->Holds_0;
    lemma_run_append(w, archive_plan(p), restore_plan(p));
    lemma_run_two(w, StepV::ClearArchive(p), StepV::ArchiveSlot(p));
    let w1 = run(w, archive_plan(p))->Some_0;
    lemma_run_three(w1, StepV::ClearSlot, StepV::RestoreSlot(p), StepV::PlaceMarker(p));
    let w2 = apply(w1, StepV::ClearSlot)->Some_0;
    lemma_run_two(w2, StepV::RestoreSlot(p), StepV::PlaceMarker(p));
    lemma_marked_again(t, p);
}

/// Choosing the profile that is already active needs no step, so the slot and
/// every archive stay as they are; the same holds in link mode when the slot
/// already links to the chosen profile.
pub proof fn lemma_select_active_is_noop(
    w: World,
    active: Seq<char>,
    profiles: Seq<Seq<char>>,
    linked: SlotMode,
)
    requires
        linked is Link,
        profiles.contains(linked->Link_0@),
    ensures
        select_plan(active, profiles, ChoiceV::Existing(active)) == Ok::<Seq<StepV>, SwapError>(
            Seq::empty(),
        ),
        link_swap_plan(linked, profiles, ChoiceV::Existing(linked->Link_0@)) == Ok::<
            Seq<StepV>,
            SwapError,
        >(Seq::empty()),
        run(w, Seq::empty()) == Some(w),
{
}

/// Swapping from `a` to an empty profile `b` and back again brings back the
/// slot of `a` unchanged, every file of it included, and leaves in the archive
/// of `b` nothing but its own marker.
pub proof fn lemma_swap_there_and_back(
    w: World,
    profiles: Seq<Seq<char>>,
    a: Seq<char>,
    b: Seq<char>,
    f: Seq<Seq<char>>,
)
    requires
        a.len() > 0,
        b.len() > 0,
        a != b,
        profiles.contains(a),
        profiles.contains(b),
        w.archives.contains_key(a),
        w.archives.contains_key(b),
        w.archives[b].is_empty(),
        slot_marked_for(w.slot, a),
        w.slot->Holds_0[seq![marker_name(a)]] == Some(Seq::<u8>::empty()),
        w.slot->Holds_0.contains_key(f),
    ensures
        select_plan(a, profiles, ChoiceV::Existing(b)) is Ok,
        select_plan(b, profiles, ChoiceV::Existing(a)) is Ok,
        ({
            let there = select_plan(a, profiles, ChoiceV::Existing(b))->Ok_0;
            let back = select_plan(b, profiles, ChoiceV::Existing(a))->Ok_0;
            &&& run(w, there) is Some
            &&& run(run(w, there)->Some_0, back) is Some
            &&& run(run(w, there)->Some_0, back)->Some_0.slot == w.slot
            &&& run(run(w, there)->Some_0, back)->Some_0.slot->Holds_0[f] == w.slot->Holds_0[f]
            &&& forall|k: Seq<Seq<char>>|
                #[trigger] run(run(w, there)->Some_0, back)->Some_0.archives[b].contains_key(k)
                    ==> k == seq![marker_name(b)]
        }),
{
    let t = w.slot->Holds_0;
    lemma_swap_outcome(w, a, b);
    let v = run(w, archive_plan(a) + restore_plan(b))->Some_0;
    let e = Map::<Seq<Seq<char>>, Option<Seq<u8>>>::empty();
    assert(unmarked(e) =~= e);
    lemma_swap_outcome(v, b, a);
    lemma_marked_again(t, a);
}

/// What a swap between two different profiles does, when it succeeds.
proof fn lemma_swap_outcome(w: World, a: Seq<char>, b: Seq<char>)
    requires
        a != b,
        w.archives.contains_key(a),
        w.archives.contains_key(b),
        w.slot is Holds,
    ensures
        run(w, archive_plan(a) + restore_plan(b)) == Some(
            World {
                slot: Slot::Holds(marked(w.archives[b], b)),
                archives: w.archives.insert(a, w.slot->Holds_0),
            },
        ),
{
    lemma_run_append(w, archive_plan(a), restore_plan(b));
    lemma_run_two(w, StepV::ClearArchive(a), StepV::ArchiveSlot(a));
    let w1 = run(w, archive_plan(a))->Some_0;
    lemma_run_three(w1, StepV::ClearSlot, StepV::RestoreSlot(b), StepV::PlaceMarker(b));
    let w2 = apply(w1, StepV::ClearSlot)->Some_0;
    lemma_run_two(w2, StepV::RestoreSlot(b), StepV::PlaceMarker(b));
    assert(w1.archives =~= w.archives.insert(a, w.slot->Holds_0));
}

/// After any successful copy-mode swap the slot's only marker is the one of the
/// chosen profile. Choosing the active profile changes nothing, so there the
/// slot keeps the single marker it had.
pub proof fn lemma_swap_leaves_one_marker(
    w: World,
    slot: SlotMode,
    profiles: Seq<Seq<char>>,
    choice: ChoiceV,
)
    requires
        slot is CopyWithMarker,
        choice_target(choice).len() > 0,
        copy_swap_plan(slot, profiles, choice) is Ok,
        run(w, copy_swap_plan(slot, profiles, choice)->Ok_0) is Some,
        choice_target(choice) == slot->CopyWithMarker_0@ ==> slot_marked_for(
            w.slot,
            slot->CopyWithMarker_0@,
        ),
    ensures
        slot_marked_for(
            run(w, copy_swap_plan(slot, profiles, choice)->Ok_0)->Some_0.slot,
            choice_target(choice),
        ),
{
    let p = slot->CopyWithMarker_0@;
    let q = choice_target(choice);
    if choice is Existing && q == p {
    } else {
        let tail = if choice is Existing {
            restore_plan(q)
        } else {
            fresh_plan(q)
        };
        assert(copy_swap_plan(slot, profiles, choice)->Ok_0 == archive_plan(p) + tail);
        lemma_run_append(w, archive_plan(p), tail);
        let w1 = run(w, archive_plan(p))->Some_0;
        lemma_run_three(w1, tail[0], tail[1], tail[2]);
        assert(tail =~= seq![tail[0], tail[1], tail[2]]);
        let w2 = apply(w1, tail[0])->Some_0;
        lemma_run_two(w2, tail[1], tail[2]);
        let w3 = apply(w2, tail[1])->Some_0;
        lemma_marked_marks_only(w3.slot->Holds_0, q);
    }
}

/// After any successful link-mode swap the slot is a link to the chosen
/// profile's archive, and so holds no data of its own. Where no step was
/// needed, the slot already linked there.
pub proof fn lemma_link_swap_links_target(
    w: World,
    slot: SlotMode,
    profiles: Seq<Seq<char>>,
    choice: ChoiceV,
)
    requires
        slot is Link ==> w.slot == Slot::Linked(slot->Link_0@),
        link_swap_plan(slot, profiles, choice) is Ok,
        run(w, link_swap_plan(slot, profiles, choice)->Ok_0) is Some,
    ensures
        run(w, link_swap_plan(slot, profiles, choice)->Ok_0)->Some_0.slot == Slot::Linked(
            choice_target(choice),
        ),
{
    let plan = link_swap_plan(slot, profiles, choice)->Ok_0;
    let target = choice_target(choice);
    let link = creation(choice).push(StepV::LinkSlot(target));
    if plan.len() > 0 {
        if slot is Link {
            assert((seq![StepV::Unlink] + link).last() == link.last());
        } else if slot is CopyWithMarker {
            assert((seq![StepV::AdoptSlot(slot->CopyWithMarker_0@)] + link).last() == link.last());
        }
        assert(plan.last() == StepV::LinkSlot(target));
        let front = plan.drop_last();
        assert(plan =~= front + seq![plan.last()]);
        lemma_run_append(w, front, seq![plan.last()]);
        assert(seq![plan.last()].drop_first() =~= Seq::<StepV>::empty());
        let v = run(w, front)->Some_0;
        match apply(v, plan.last()) {
            Some(u) => {
                assert(run(u, Seq::<StepV>::empty()) == Some(u));
            },
            None => {},
        }
    } else {
        assert(slot is Link);
        assert((seq![StepV::Unlink] + link).len() > 0);
        assert(slot->Link_0@ == target);
    }
}

/// A new profile may not take a name already in the archive: the check, both
/// kinds of swap and the creation step itself refuse it, and so nothing in the
/// archive changes.
pub proof fn lemma_name_collision_refused(
    w: World,
    active: Seq<char>,
    slot: SlotMode,
    profiles: Seq<Seq<char>>,
    n: Seq<char>,
)
    requires
        valid_profile_name(n),
        profiles.contains(n),
    ensures
        name_check(profiles, n) == Err::<(), ProfileError>(ProfileError::AlreadyExists),
        select_plan(active, profiles, ChoiceV::Create(n)) == Err::<Seq<StepV>, SwapError>(
            SwapError::AlreadyExists,
        ),
        link_swap_plan(slot, profiles, ChoiceV::Create(n)) == Err::<Seq<StepV>, SwapError>(
            SwapError::AlreadyExists,
        ),
        w.archives.contains_key(n) ==> apply(w, StepV::CreateProfile(n)) is None,
{
}

proof fn lemma_copy_ops_effect(src: Tree, dest: Tree, p: Seq<Seq<char>>, entries: Seq<Listed>)
    requires
        forall|k: Seq<Seq<char>>|
            #[trigger] dest.contains_key(k) ==> src.contains_key(k) && dest[k] == src[k],
        forall|j: int|
            0 <= j < entries.len() ==> src.contains_key(#[trigger] p.push(entries[j].name@)) && (
            entries[j].is_dir <==> src[p.push(entries[j].name@)] is None),
    ensures
        forall|j: int|
            0 <= j < entries.len() ==> ops_result(src, dest, copy_ops(p, entries)).contains_key(
                #[trigger] p.push(entries[j].name@),
            ),
        forall|k: Seq<Seq<char>>|
            dest.contains_key(k) ==> #[trigger] ops_result(
                src,
                dest,
                copy_ops(p, entries),
            ).contains_key(k),
        forall|k: Seq<Seq<char>>|
            #[trigger] ops_result(src, dest, copy_ops(p, entries)).contains_key(k)
                ==> src.contains_key(k) && ops_result(src, dest, copy_ops(p, entries))[k]
                == src[k],
    decreases entries.len(),
{
    if entries.len() > 0 {
        let front = entries.drop_last();
        assert forall|j: int|
            0 <= j < front.len() implies src.contains_key(#[trigger] p.push(front[j].name@)) && (
            front[j].is_dir <==> src[p.push(front[j].name@)] is None) by {
            assert(front[j] == entries[j]);
        }
        lemma_copy_ops_effect(src, dest, p, front);
        let ops = copy_ops(p, entries);
        assert(ops.drop_last() =~= copy_ops(p, front));
        let last = entries.len() - 1;
        assert(entries.last() == entries[last]);
        assert forall|j: int|
            0 <= j < entries.len() implies ops_result(src, dest, ops).contains_key(
                #[trigger] p.push(entries[j].name@),
            ) by {
            if j < last {
                assert(front[j] == entries[j]);
            }
        }
    }
}

proof fn lemma_subdirs_hold(p: Seq<Seq<char>>, entries: Seq<Listed>)
    ensures
        forall|j: int|
            0 <= j < entries.len() && entries[j].is_dir ==> subdirs(p, entries).contains(
                #[trigger] p.push(entries[j].name@),
            ),
    decreases entries.len(),
{
    if entries.len() > 0 {
        let front = entries.drop_last();
        lemma_subdirs_hold(p, front);
        let last = entries.len() - 1;
        assert forall|j: int|
            0 <= j < entries.len() && entries[j].is_dir implies subdirs(p, entries).contains(
                #[trigger] p.push(entries[j].name@),
            ) by {
            let prev = subdirs(p, front);
            if j < last {
                assert(front[j] == entries[j]);
                let m = choose|m: int| 0 <= m < prev.len() && prev[m] == p.push(front[j].name@);
                if entries.last().is_dir {
                    assert(prev.push(p.push(entries.last().name@))[m] == prev[m]);
                }
            } else {
                assert(prev.push(p.push(entries.last().name@))[prev.len() as int] == p.push(
                    entries[j].name@,
                ));
            }
        }
    }
}

/// A copy walk starts out with nothing copied and the whole source below its
/// one pending directory, the root.
pub proof fn lemma_copy_walk_start(src: Tree)
    requires
        tree_ok(src),
    ensures
        copy_progress(src, Map::empty(), seq![Seq::<Seq<char>>::empty()]),
        copy_order(Map::empty(), seq![Seq::<Seq<char>>::empty()]),
{
    let pending = seq![Seq::<Seq<char>>::empty()];
    assert forall|k: Seq<Seq<char>>| #[trigger] src.contains_key(k) implies exists|i: int|
        0 <= i < pending.len() && below(#[trigger] pending[i], k) by {
        if k.len() == 0 {
            assert(k =~= Seq::<Seq<char>>::empty());
        }
        assert(k.subrange(0, 0) =~= Seq::<Seq<char>>::empty());
        assert(below(pending[0], k));
    }
}

/// Visiting the pending directory `p` with a true listing, and carrying out
/// the operations the walk returns, keeps the copy on track: the directories
/// pending are then the others and the subdirectories of `p`.
pub proof fn lemma_copy_walk_visit(
    src: Tree,
    dest: Tree,
    rest: Seq<Seq<Seq<char>>>,
    p: Seq<Seq<char>>,
    entries: Seq<Listed>,
)
    requires
        tree_ok(src),
        copy_progress(src, dest, rest.push(p)),
        lists_children(src, p, entries),
    ensures
        copy_progress(src, ops_result(src, dest, copy_ops(p, entries)), rest + subdirs(p, entries)),
{
    let r = ops_result(src, dest, copy_ops(p, entries));
    let old_pending = rest.push(p);
    let pending = rest + subdirs(p, entries);
    lemma_copy_ops_effect(src, dest, p, entries);
    lemma_subdirs_hold(p, entries);
    assert forall|k: Seq<Seq<char>>| #[trigger] src.contains_key(k) implies r.contains_key(k)
        || exists|i: int| 0 <= i < pending.len() && below(#[trigger] pending[i], k) by {
        if !dest.contains_key(k) {
            let i = choose|i: int| 0 <= i < old_pending.len() && below(#[trigger] old_pending[i], k);
            if i < rest.len() {
                assert(pending[i] == old_pending[i]);
            } else {
                assert(old_pending[i] == p);
                if k.len() == p.len() + 1 {
                    assert(k =~= p.push(k.last()));
                    let j = choose|j: int| 0 <= j < entries.len() && #[trigger] entries[j].name@ == k.last();
                    assert(k == p.push(entries[j].name@));
                } else {
                    let n = p.len() + 1;
                    let c = k.subrange(0, n as int);
                    assert(src.contains_key(c) && src[c] is None);
                    assert(c.subrange(0, p.len() as int) =~= p);
                    assert(c =~= p.push(c.last()));
                    let j = choose|j: int| 0 <= j < entries.len() && #[trigger] entries[j].name@ == c.last();
                    assert(c == p.push(entries[j].name@));
                    assert(entries[j].is_dir);
                    let sd = subdirs(p, entries);
                    assert(sd.contains(c));
                    let m = choose|m: int| 0 <= m < sd.len() && sd[m] == c;
                    assert(pending[rest.len() + m] == c);
                    assert(k.subrange(0, c.len() as int) =~= c);
                    assert(below(pending[rest.len() + m], k));
                }
            }
        }
    }
}

/// When no directory is pending, the copy equals the source, entry for entry
/// and byte for byte.
pub proof fn lemma_copy_walk_done(src: Tree, dest: Tree)
    requires
        copy_progress(src, dest, Seq::empty()),
    ensures
        dest == src,
{
    assert(dest =~= src);
}

proof fn lemma_remove_ops_effect(t: Tree, q: Seq<Seq<char>>, entries: Seq<Listed>)
    requires
        forall|j: int|
            0 <= j < entries.len() ==> t.contains_key(#[trigger] q.push(entries[j].name@)) && (
            entries[j].is_dir <==> t[q.push(entries[j].name@)] is None),
    ensures
        forall|k: Seq<Seq<char>>|
            #[trigger] ops_result(t, t, remove_ops(q, entries)).contains_key(k) ==> t.contains_key(k)
                && ops_result(t, t, remove_ops(q, entries))[k] == t[k],
        forall|k: Seq<Seq<char>>|
            t.contains_key(k) && t[k] is None ==> #[trigger] ops_result(
                t,
                t,
                remove_ops(q, entries),
            ).contains_key(k),
        forall|j: int|
            0 <= j < entries.len() && !entries[j].is_dir ==> !ops_result(
                t,
                t,
                remove_ops(q, entries),
            ).contains_key(#[trigger] q.push(entries[j].name@)),
    decreases entries.len(),
{
    if entries.len() > 0 {
        let front = entries.drop_last();
        assert forall|j: int|
            0 <= j < front.len() implies t.contains_key(#[trigger] q.push(front[j].name@)) && (
            front[j].is_dir <==> t[q.push(front[j].name@)] is None) by {
            assert(front[j] == entries[j]);
        }
        lemma_remove_ops_effect(t, q, front);
        let last = entries.len() - 1;
        assert(entries.last() == entries[last]);
        if !entries.last().is_dir {
            let ops = remove_ops(q, entries);
            assert(ops.drop_last() =~= remove_ops(q, front));
        }
        assert forall|j: int|
            0 <= j < entries.len() && !entries[j].is_dir implies !ops_result(
                t,
                t,
                remove_ops(q, entries),
            ).contains_key(#[trigger] q.push(entries[j].name@)) by {
            if j < last {
                assert(front[j] == entries[j]);
            }
        }
    }
}

proof fn lemma_nested_visits_shape(q: Seq<Seq<char>>, entries: Seq<Listed>)
    ensures
        forall|m: int|
            0 <= m < nested_visits(q, entries).len() && #[trigger] nested_visits(q, entries)[m] is Leave
                ==> m + 1 < nested_visits(q, entries).len() && nested_visits(q, entries)[m + 1]
                == VisitV::Enter(nested_visits(q, entries)[m]->Leave_0),
        forall|j: int|
            0 <= j < entries.len() && entries[j].is_dir ==> exists|m: int|
                0 <= m < nested_visits(q, entries).len() && #[trigger] nested_visits(q, entries)[m]
                    == VisitV::Leave(q.push(entries[j].name@)),
    decreases entries.len(),
{
    if entries.len() > 0 {
        let front = entries.drop_last();
        lemma_nested_visits_shape(q, front);
        let prev = nested_visits(q, front);
        let all = nested_visits(q, entries);
        let last = entries.len() - 1;
        assert(entries.last() == entries[last]);
        assert forall|m: int| 0 <= m < all.len() && #[trigger] all[m] is Leave implies m + 1 < all.len()
            && all[m + 1] == VisitV::Enter(all[m]->Leave_0) by {
            if m < prev.len() {
                assert(all[m] == prev[m]);
                if m + 1 < prev.len() {
                    assert(all[m + 1] == prev[m + 1]);
                }
            }
        }
        assert forall|j: int| 0 <= j < entries.len() && entries[j].is_dir implies exists|m: int|
            0 <= m < all.len() && #[trigger] all[m] == VisitV::Leave(q.push(entries[j].name@)) by {
            if j < last {
                assert(front[j] == entries[j]);
                let m = choose|m: int|
                    0 <= m < prev.len() && #[trigger] prev[m] == VisitV::Leave(q.push(front[j].name@));
                assert(all[m] == prev[m]);
            } else {
                assert(all[prev.len() as int] == VisitV::Leave(q.push(entries[j].name@)));
            }
        }
    }
}

/// A removal walk starts with every entry of the tree below the root it
/// enters first.
pub proof fn lemma_remove_walk_start(t: Tree)
    requires
        tree_ok(t),
    ensures
        removal_progress(t, seq![VisitV::Enter(Seq::<Seq<char>>::empty())]),
{
    let pending = seq![VisitV::Enter(Seq::<Seq<char>>::empty())];
    assert forall|k: Seq<Seq<char>>| #[trigger] t.contains_key(k) implies exists|i: int|
        0 <= i < pending.len() && covers(#[trigger] pending[i], k) by {
        if k.len() == 0 {
            assert(k =~= Seq::<Seq<char>>::empty());
        }
        assert(k.subrange(0, 0) =~= Seq::<Seq<char>>::empty());
        assert(covers(pending[0], k));
    }
}

/// Entering the directory `q` with a true listing and deleting the files the
/// walk names keeps the removal on track, with the visits for the
/// subdirectories of `q` now pending.
pub proof fn lemma_remove_walk_enter(
    t: Tree,
    rest: Seq<VisitV>,
    q: Seq<Seq<char>>,
    entries: Seq<Listed>,
)
    requires
        removal_progress(t, rest.push(VisitV::Enter(q))),
        lists_children(t, q, entries),
    ensures
        removal_progress(ops_result(t, t, remove_ops(q, entries)), rest + nested_visits(q, entries)),
{
    let r = ops_result(t, t, remove_ops(q, entries));
    let old_pending = rest.push(VisitV::Enter(q));
    let nested = nested_visits(q, entries);
    let pending = rest + nested;
    let n = rest.len() as int;
    lemma_remove_ops_effect(t, q, entries);
    lemma_nested_visits_shape(q, entries);
    // Where an entry below q waits now.
    assert forall|k: Seq<Seq<char>>| r.contains_key(k) && below(q, k) implies exists|m: int|
        0 <= m < nested.len() && covers(#[trigger] nested[m], k) by {
        if k.len() == q.len() + 1 {
            assert(k =~= q.push(k.last()));
            let j = choose|j: int| 0 <= j < entries.len() && #[trigger] entries[j].name@ == k.last();
            assert(k == q.push(entries[j].name@));
            assert(entries[j].is_dir);
            let m = choose|m: int|
                0 <= m < nested.len() && #[trigger] nested[m] == VisitV::Leave(q.push(entries[j].name@));
            assert(covers(nested[m], k));
        } else {
            let c = k.subrange(0, q.len() + 1 as int);
            assert(t.contains_key(c) && t[c] is None);
            assert(c.subrange(0, q.len() as int) =~= q);
            assert(c =~= q.push(c.last()));
            let j = choose|j: int| 0 <= j < entries.len() && #[trigger] entries[j].name@ == c.last();
            assert(c == q.push(entries[j].name@));
            assert(entries[j].is_dir);
            let m = choose|m: int|
                0 <= m < nested.len() && #[trigger] nested[m] == VisitV::Leave(q.push(entries[j].name@));
            assert(nested[m] is Leave);
            assert(nested[m + 1] == VisitV::Enter(c));
            assert(k.subrange(0, c.len() as int) =~= c);
            assert(covers(nested[m + 1], k));
        }
    }
    // The tree stays well formed: only files went.
    assert forall|k: Seq<Seq<char>>, i: int|
        #![trigger r.contains_key(k), k.subrange(0, i)]
        r.contains_key(k) && 0 < i < k.len() implies r.contains_key(k.subrange(0, i))
        && r[k.subrange(0, i)] is None by {
        assert(t.contains_key(k.subrange(0, i)));
    }
    // Every entry still waits for a visit.
    assert forall|k: Seq<Seq<char>>| #[trigger] r.contains_key(k) implies exists|i: int|
        0 <= i < pending.len() && covers(#[trigger] pending[i], k) by {
        let i = choose|i: int| 0 <= i < old_pending.len() && covers(#[trigger] old_pending[i], k);
        if i < n {
            assert(pending[i] == old_pending[i]);
        } else {
            let m = choose|m: int| 0 <= m < nested.len() && covers(#[trigger] nested[m], k);
            assert(pending[n + m] == nested[m]);
        }
    }
    // Deletions still come after what lies below them.
    assert forall|k: Seq<Seq<char>>, i: int|
        #![trigger r.contains_key(k), pending[i]]
        r.contains_key(k) && 0 <= i < pending.len() && pending[i] is Leave && below(
            pending[i]->Leave_0,
            k,
        ) implies exists|i2: int| i < i2 < pending.len() && covers(#[trigger] pending[i2], k) by {
        if i < n {
            assert(old_pending[i] == pending[i]);
            let i2 = choose|i2: int| i < i2 < old_pending.len() && covers(#[trigger] old_pending[i2], k);
            if i2 < n {
                assert(pending[i2] == old_pending[i2]);
            } else {
                let m = choose|m: int| 0 <= m < nested.len() && covers(#[trigger] nested[m], k);
                assert(pending[n + m] == nested[m]);
            }
        } else {
            let m = i - n;
            assert(nested[m] == pending[i]);
            assert(nested[m + 1] == VisitV::Enter(nested[m]->Leave_0));
            assert(pending[i + 1] == nested[m + 1]);
            assert(covers(pending[i + 1], k));
        }
    }
}

/// When the walk leaves the directory `d`, nothing below it is left, so it can
/// be deleted, and the removal stays on track.
pub proof fn lemma_remove_walk_leave(t: Tree, rest: Seq<VisitV>, d: Seq<Seq<char>>)
    requires
        removal_progress(t, rest.push(VisitV::Leave(d))),
    ensures
        forall|k: Seq<Seq<char>>| #[trigger] t.contains_key(k) ==> !below(d, k),
        removal_progress(t.remove(d), rest),
{
    let old_pending = rest.push(VisitV::Leave(d));
    let n = rest.len() as int;
    let r = t.remove(d);
    assert forall|k: Seq<Seq<char>>| #[trigger] t.contains_key(k) implies !below(d, k) by {
        if below(d, k) {
            assert(old_pending[n] is Leave);
            assert(old_pending[n]->Leave_0 == d);
        }
    }
    assert forall|k: Seq<Seq<char>>, i: int|
        #![trigger r.contains_key(k), k.subrange(0, i)]
        r.contains_key(k) && 0 < i < k.len() implies r.contains_key(k.subrange(0, i))
        && r[k.subrange(0, i)] is None by {
        assert(t.contains_key(k.subrange(0, i)));
        if k.subrange(0, i) == d {
            assert(below(d, k));
        }
    }
    assert forall|k: Seq<Seq<char>>| #[trigger] r.contains_key(k) implies exists|i: int|
        0 <= i < rest.len() && covers(#[trigger] rest[i], k) by {
        let i = choose|i: int| 0 <= i < old_pending.len() && covers(#[trigger] old_pending[i], k);
        assert(i < n);
        assert(rest[i] == old_pending[i]);
    }
    assert forall|k: Seq<Seq<char>>, i: int|
        #![trigger r.contains_key(k), rest[i]]
        r.contains_key(k) && 0 <= i < rest.len() && rest[i] is Leave && below(rest[i]->Leave_0, k)
            implies exists|i2: int| i < i2 < rest.len() && covers(#[trigger] rest[i2], k) by {
        assert(old_pending[i] == rest[i]);
        let i2 = choose|i2: int| i < i2 < old_pending.len() && covers(#[trigger] old_pending[i2], k);
        assert(i2 < n);
        assert(rest[i2] == old_pending[i2]);
    }
}

/// When no visit is pending, the tree is empty.
pub proof fn lemma_remove_walk_done(t: Tree)
    requires
        removal_progress(t, Seq::empty()),
    ensures
        t == Map::<Seq<Seq<char>>, Option<Seq<u8>>>::empty(),
{
    assert(t =~= Map::<Seq<Seq<char>>, Option<Seq<u8>>>::empty());
}

proof fn lemma_copy_visit_count(src: Tree, dest: Tree, p: Seq<Seq<char>>, entries: Seq<Listed>)
    requires
        src.dom().finite(),
        distinct_names(entries),
        forall|j: int| 0 <= j < entries.len() ==> src.contains_key(#[trigger] p.push(entries[j].name@)),
        forall|k: Seq<Seq<char>>| #[trigger] dest.contains_key(k) ==> !below(p, k),
    ensures
        src.dom().difference(ops_result(src, dest, copy_ops(p, entries)).dom()).len() + entries.len()
            == src.dom().difference(dest.dom()).len(),
        subdirs(p, entries).len() <= entries.len(),
        subdirs(p, entries).no_duplicates(),
        forall|m: int| 0 <= m < subdirs(p, entries).len() ==> exists|j: int|
            0 <= j < entries.len() && #[trigger] subdirs(p, entries)[m] == p.push(entries[j].name@),
        forall|k: Seq<Seq<char>>|
            #[trigger] ops_result(src, dest, copy_ops(p, entries)).contains_key(k) ==> dest.contains_key(k)
                || exists|j: int| 0 <= j < entries.len() && k == p.push(entries[j].name@),
    decreases entries.len(),
{
    if entries.len() > 0 {
        let front = entries.drop_last();
        let last = entries.len() - 1;
        assert(entries.last() == entries[last]);
        assert forall|j: int| 0 <= j < front.len() implies src.contains_key(#[trigger] p.push(front[j].name@)) by {
            assert(front[j] == entries[j]);
        }
        assert forall|i: int, j: int|
            0 <= i < front.len() && 0 <= j < front.len() && i != j implies #[trigger] front[i].name@
                != #[trigger] front[j].name@ by {
            assert(front[i] == entries[i]);
            assert(front[j] == entries[j]);
        }
        lemma_copy_visit_count(src, dest, p, front);
        let prev = ops_result(src, dest, copy_ops(p, front));
        let ops = copy_ops(p, entries);
        assert(ops.drop_last() =~= copy_ops(p, front));
        let c = p.push(entries[last].name@);
        let r = ops_result(src, dest, ops);
        // the last child is new
        assert(!prev.contains_key(c)) by {
            if prev.contains_key(c) {
                if dest.contains_key(c) {
                    assert(c.subrange(0, p.len() as int) =~= p);
                    assert(below(p, c));
                } else {
                    let j = choose|j: int| 0 <= j < front.len() && c == p.push(front[j].name@);
                    assert(c.last() == front[j].name@);
                    assert(front[j] == entries[j]);
                }
            }
        }
        assert(r.dom() =~= prev.dom().insert(c));
        assert(src.dom().difference(r.dom()) =~= src.dom().difference(prev.dom()).remove(c));
        assert(src.dom().difference(prev.dom()).contains(c));
        assert forall|k: Seq<Seq<char>>| #[trigger] r.contains_key(k) implies dest.contains_key(k)
            || exists|j: int| 0 <= j < entries.len() && k == p.push(entries[j].name@) by {
            if k != c && !dest.contains_key(k) {
                let j = choose|j: int| 0 <= j < front.len() && k == p.push(front[j].name@);
                assert(front[j] == entries[j]);
            }
        }
        let sp = subdirs(p, front);
        let sd = subdirs(p, entries);
        assert forall|m: int| 0 <= m < sd.len() implies exists|j: int|
            0 <= j < entries.len() && #[trigger] sd[m] == p.push(entries[j].name@) by {
            if m < sp.len() {
                let j = choose|j: int| 0 <= j < front.len() && #[trigger] sp[m] == p.push(front[j].name@);
                assert(front[j] == entries[j]);
                assert(sd[m] == sp[m]);
            } else {
                assert(sd[m] == c);
            }
        }
        if entries[last].is_dir {
            assert forall|m: int| 0 <= m < sp.len() implies #[trigger] sp[m] != c by {
                let j = choose|j: int| 0 <= j < front.len() && #[trigger] sp[m] == p.push(front[j].name@);
                assert(front[j] == entries[j]);
                assert(sp[m].last() == front[j].name@);
            }
            assert forall|a: int, b: int| 0 <= a < sd.len() && 0 <= b < sd.len() && a != b implies sd[a]
                != sd[b] by {
                if a < sp.len() && b < sp.len() {
                    assert(sd[a] == sp[a] && sd[b] == sp[b]);
                } else if a < sp.len() {
                    assert(sd[a] == sp[a]);
                } else {
                    assert(sd[b] == sp[b]);
                }
            }
        }
    }
}

/// A copy walk copies nothing twice and comes to an end: visiting the pending
/// directory `p` with a true listing keeps copied entries out from under the
/// pending directories, and makes the entries left to copy plus the
/// directories pending strictly fewer.
pub proof fn lemma_copy_walk_measure(
    src: Tree,
    dest: Tree,
    rest: Seq<Seq<Seq<char>>>,
    p: Seq<Seq<char>>,
    entries: Seq<Listed>,
)
    requires
        src.dom().finite(),
        copy_order(dest, rest.push(p)),
        lists_children(src, p, entries),
        distinct_names(entries),
    ensures
        copy_order(ops_result(src, dest, copy_ops(p, entries)), rest + subdirs(p, entries)),
        copy_measure(src, ops_result(src, dest, copy_ops(p, entries)), rest + subdirs(p, entries))
            < copy_measure(src, dest, rest.push(p)),
{
    let old_pending = rest.push(p);
    let n = rest.len() as int;
    assert(old_pending[n] == p);
    assert forall|k: Seq<Seq<char>>| #[trigger] dest.contains_key(k) implies !below(p, k) by {
        assert(!below(old_pending[n], k));
    }
    lemma_copy_visit_count(src, dest, p, entries);
    let r = ops_result(src, dest, copy_ops(p, entries));
    let sd = subdirs(p, entries);
    let pending = rest + sd;
    // rest[i] is neither p nor above p
    assert forall|i: int| 0 <= i < n implies #[trigger] rest[i] != p && !below(rest[i], p) && !below(p, rest[i]) by {
        assert(old_pending[i] == rest[i]);
    }
    assert forall|k: Seq<Seq<char>>, i: int|
        #![trigger r.contains_key(k), pending[i]]
        r.contains_key(k) && 0 <= i < pending.len() implies !below(pending[i], k) by {
        if i < n {
            assert(pending[i] == rest[i]);
            assert(old_pending[i] == rest[i]);
            if !dest.contains_key(k) {
                let j = choose|j: int| 0 <= j < entries.len() && k == p.push(entries[j].name@);
                if below(rest[i], k) {
                    if rest[i].len() == p.len() {
                        assert(rest[i] =~= p);
                    } else {
                        assert(p.subrange(0, rest[i].len() as int) =~= k.subrange(0, rest[i].len() as int));
                        assert(below(rest[i], p));
                    }
                }
            }
        } else {
            let m = i - n;
            assert(pending[i] == sd[m]);
            let j = choose|j: int| 0 <= j < entries.len() && #[trigger] sd[m] == p.push(entries[j].name@);
            if dest.contains_key(k) && below(sd[m], k) {
                assert(sd[m].subrange(0, p.len() as int) =~= p);
                assert(k.subrange(0, p.len() as int) =~= k.subrange(0, sd[m].len() as int).subrange(0, p.len() as int));
                assert(below(p, k));
            }
        }
    }
    assert forall|i: int, j: int|
        #![trigger pending[i], pending[j]]
        0 <= i < pending.len() && 0 <= j < pending.len() && i != j implies pending[i] != pending[j]
            && !below(pending[i], pending[j]) by {
        if i < n && j < n {
            assert(pending[i] == old_pending[i] && pending[j] == old_pending[j]);
        } else if i < n {
            let x = choose|x: int| 0 <= x < entries.len() && #[trigger] sd[j - n] == p.push(entries[x].name@);
            assert(sd[j - n].subrange(0, p.len() as int) =~= p);
            lemma_rest_apart_from_child(p, rest[i], sd[j - n]);
            assert(pending[i] == rest[i] && pending[j] == sd[j - n]);
        } else if j < n {
            let x = choose|x: int| 0 <= x < entries.len() && #[trigger] sd[i - n] == p.push(entries[x].name@);
            assert(sd[i - n].subrange(0, p.len() as int) =~= p);
            lemma_rest_apart_from_child(p, rest[j], sd[i - n]);
            assert(pending[j] == rest[j] && pending[i] == sd[i - n]);
        } else {
            assert(pending[i] == sd[i - n] && pending[j] == sd[j - n]);
            let x = choose|x: int| 0 <= x < entries.len() && #[trigger] sd[i - n] == p.push(entries[x].name@);
            let y = choose|y: int| 0 <= y < entries.len() && #[trigger] sd[j - n] == p.push(entries[y].name@);
            assert(sd[i - n] != sd[j - n]);
            assert(sd[i - n].len() == sd[j - n].len());
        }
    }
}

/// A directory pending beside `p`, neither `p` nor related to it by nesting,
/// is neither a child `c` of `p` nor above or below it.
proof fn lemma_rest_apart_from_child(p: Seq<Seq<char>>, q: Seq<Seq<char>>, c: Seq<Seq<char>>)
    requires
        q != p,
        !below(q, p),
        !below(p, q),
        c.len() == p.len() + 1,
        c.subrange(0, p.len() as int) == p,
    ensures
        q != c,
        !below(q, c),
        !below(c, q),
{
    if q == c {
        assert(below(p, q));
    }
    if below(q, c) {
        if q.len() == p.len() {
            assert(q =~= p);
        } else {
            assert(p.subrange(0, q.len() as int) =~= c.subrange(0, q.len() as int));
            assert(below(q, p));
        }
    }
    if below(c, q) {
        assert(q.subrange(0, p.len() as int) =~= q.subrange(0, c.len() as int).subrange(0, p.len() as int));
        assert(below(p, q));
    }
}
} // verus!
