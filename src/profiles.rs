use vstd::prelude::*;
use crate::text::{contains_char, has_char, push_char, same_text};

verus! {

/// Menu label that asks for a new profile; it is never a profile's name.
pub open spec fn new_profile_label() -> Seq<char> {
    seq!['N', 'e', 'w', ' ', 'U', 's', 'e', 'r']
}

/// The label as an executable string.
pub fn new_profile_label_text() -> (r: String)
    ensures
        r@ == new_profile_label(),
{
    let mut r = String::new();
    push_char(&mut r, 'N');
    push_char(&mut r, 'e');
    push_char(&mut r, 'w');
    push_char(&mut r, ' ');
    push_char(&mut r, 'U');
    push_char(&mut r, 's');
    push_char(&mut r, 'e');
    push_char(&mut r, 'r');
    assert(r@ =~= new_profile_label());
    r
}

/// One entry of a directory listing: its file name, and whether it is a directory.
#[derive(Debug, Clone, PartialEq, Eq)]
pub struct Listed {
    pub name: String,
    pub is_dir: bool,
}

/// The characters of each string, in order.
pub open spec fn names_view(v: Seq<String>) -> Seq<Seq<char>> {
    v.map_values(|s: String| s@)
}

/// Names of the directories of a listing, in listing order.
pub open spec fn profile_names(entries: Seq<Listed>) -> Seq<Seq<char>>
    decreases entries.len(),
{
    if entries.len() == 0 {
        Seq::empty()
    } else {
        let prev = profile_names(entries.drop_last());
        if entries.last().is_dir {
            prev.push(entries.last().name@)
        } else {
            prev
        }
    }
}

/// Why a name cannot be taken for a new profile.
#[derive(Debug, Clone, Copy, PartialEq, Eq, Structural)]
pub enum ProfileError {
    /// Empty, the menu's own label, or not usable as a single file name.
    InvalidInput,
    /// A profile of that name is already there.
    AlreadyExists,
}

/// A name that may label a profile: non-empty, not the menu label, and free of
/// path separators, so that it names one directory of the archive root.
pub open spec fn valid_profile_name(name: Seq<char>) -> bool {
    &&& name.len() > 0
    &&& name != new_profile_label()
    &&& !contains_char(name, '/')
    &&& !contains_char(name, '\\')
}

/// What checking `name` against the existing profiles gives.
pub open spec fn name_check(existing: Seq<Seq<char>>, name: Seq<char>) -> Result<(), ProfileError> {
    if !valid_profile_name(name) {
        Err(ProfileError::InvalidInput)
    } else if existing.contains(name) {
        Err(ProfileError::AlreadyExists)
    } else {
        Ok(())
    }
}

/// The profiles of the archive root, from its listing: every directory, in
/// listing order.
pub fn list_profiles(entries: &Vec<Listed>) -> (r: Vec<String>)
    ensures
        names_view(r@) == profile_names(entries@),
{
    let mut r: Vec<String> = Vec::new();
    let mut i: usize = 0;
    while i < entries.len()
        invariant
            i <= entries@.len(),
            names_view(r@) == profile_names(entries@.subrange(0, i as int)),
        decreases entries@.len() - i,
    {
        assert(entries@.subrange(0, i + 1).drop_last() =~= entries@.subrange(0, i as int));
        if entries[i].is_dir {
            r.push(entries[i].name.clone());
            assert(names_view(r@) =~= profile_names(entries@.subrange(0, i as int)).push(
                entries@[i as int].name@,
            ));
        }
        i = i + 1;
    }
    assert(entries@.subrange(0, entries@.len() as int) =~= entries@);
    r
}

/// The choices offered to the user: every profile, then the new-profile label.
pub fn menu_options(profiles: &Vec<String>) -> (r: Vec<String>)
    ensures
        names_view(r@) == names_view(profiles@).push(new_profile_label()),
{
    let mut r: Vec<String> = Vec::new();
    let mut i: usize = 0;
    while i < profiles.len()
        invariant
            i <= profiles@.len(),
            names_view(r@) == names_view(profiles@.subrange(0, i as int)),
        decreases profiles@.len() - i,
    {
        let ghost before = r@;
        r.push(profiles[i].clone());
        assert(profiles@.subrange(0, i + 1) =~= profiles@.subrange(0, i as int).push(profiles@[i as int]));
        assert(names_view(r@) =~= names_view(before).push(profiles@[i as int]@));
        assert(names_view(profiles@.subrange(0, i + 1)) =~= names_view(profiles@.subrange(0, i as int)).push(profiles@[i as int]@));
        i = i + 1;
    }
    assert(profiles@.subrange(0, profiles@.len() as int) =~= profiles@);
    r.push(new_profile_label_text());
    assert(names_view(r@) =~= names_view(profiles@).push(new_profile_label()));
    r
}

/// Whether `name` is among `names`.
pub fn contains_name(names: &Vec<String>, name: &str) -> (r: bool)
    ensures
        r == names_view(names@).contains(name@),
{
    let mut i: usize = 0;
    while i < names.len()
        invariant
            i <= names@.len(),
            forall|j: int| 0 <= j < i ==> names@[j]@ != name@,
        decreases names@.len() - i,
    {
        if same_text(names[i].as_str(), name) {
            assert(names_view(names@)[i as int] == name@);
            return true;
        }
        i = i + 1;
    }
    proof {
        if names_view(names@).contains(name@) {
            let k = choose|k: int| 0 <= k < names_view(names@).len() && names_view(names@)[k] == name@;
            assert(names@[k]@ == name@);
        }
    }
    false
}

/// Whether a menu choice is the new-profile label rather than a profile.
pub fn is_new_profile_label(choice: &str) -> (r: bool)
    ensures
        r == (choice@ == new_profile_label()),
{
    let label = new_profile_label_text();
    same_text(choice, label.as_str())
}

/// Checks a name typed for a new profile against the profiles already there.
pub fn check_new_name(existing: &Vec<String>, name: &str) -> (r: Result<(), ProfileError>)
    ensures
        r == name_check(names_view(existing@), name@),
{
    let label = new_profile_label_text();
    if name.unicode_len() == 0 || same_text(name, label.as_str()) || has_char(name, '/') || has_char(name, '\\') {
        Err(ProfileError::InvalidInput)
    } else if contains_name(existing, name) {
        Err(ProfileError::AlreadyExists)
    } else {
        Ok(())
    }
}

/// `s` without the double quotes it starts with.
pub open spec fn drop_leading_quotes(s: Seq<char>) -> Seq<char>
    decreases s.len(),
{
    if s.len() > 0 && s[0] == '"' {
        drop_leading_quotes(s.drop_first())
    } else {
        s
    }
}

/// `s` without the double quotes it ends with.
pub open spec fn drop_trailing_quotes(s: Seq<char>) -> Seq<char>
    decreases s.len(),
{
    if s.len() > 0 && s.last() == '"' {
        drop_trailing_quotes(s.drop_last())
    } else {
        s
    }
}

/// `s` without the double quotes around it; quotes inside stay.
pub open spec fn trim_quotes(s: Seq<char>) -> Seq<char> {
    drop_trailing_quotes(drop_leading_quotes(s))
}

/// Cleans a typed name: drops the double quotes around it, as a pasted path
/// may carry them.
pub fn strip_quotes(s: &str) -> (r: String)
    ensures
        r@ == trim_quotes(s@),
{
    let n = s.unicode_len();
    let mut a: usize = 0;
    assert(s@.subrange(0, n as int) =~= s@);
    while a < n && s.get_char(a) == '"'
        invariant
            n == s@.len(),
            a <= n,
            drop_leading_quotes(s@) == drop_leading_quotes(s@.subrange(a as int, n as int)),
        decreases n - a,
    {
        assert(s@.subrange(a as int, n as int).drop_first() =~= s@.subrange(a + 1, n as int));
        a = a + 1;
    }
    let mut b: usize = n;
    while b > a && s.get_char(b - 1) == '"'
        invariant
            n == s@.len(),
            a <= b <= n,
            drop_leading_quotes(s@) == s@.subrange(a as int, n as int),
            trim_quotes(s@) == drop_trailing_quotes(s@.subrange(a as int, b as int)),
        decreases b - a,
    {
        assert(s@.subrange(a as int, b as int).drop_last() =~= s@.subrange(a as int, b - 1));
        b = b - 1;
    }
    let mut r = String::new();
    let mut i: usize = a;
    assert(r@ =~= s@.subrange(a as int, a as int));
    while i < b
        invariant
            a <= i <= b <= n,
            n == s@.len(),
            r@ == s@.subrange(a as int, i as int),
        decreases b - i,
    {
        push_char(&mut r, s.get_char(i));
        assert(r@ =~= s@.subrange(a as int, i + 1));
        i = i + 1;
    }
    r
}

} // verus!
