use vstd::prelude::*;
use crate::text::push_char;

verus! {

/// Extension of the marker file that names the occupant of the slot.
pub open spec fn marker_ext() -> Seq<char> {
    seq!['m', 'h', 'z', 'd']
}

/// File name of the marker for `user`: `<user>.mhzd`.
pub open spec fn marker_name(user: Seq<char>) -> Seq<char> {
    user.push('.') + marker_ext()
}

/// A file name carries the marker extension: the text after its last dot is
/// the extension, and a leading dot alone does not start one.
pub open spec fn has_marker_ext(name: Seq<char>) -> bool {
    exists|i: int|
        0 < i < name.len() && name[i] == '.' && #[trigger] name.subrange(i + 1, name.len() as int)
            == marker_ext()
}

/// The user a marker file names: its name without the trailing `.mhzd`.
pub open spec fn user_of(name: Seq<char>) -> Seq<char> {
    name.subrange(0, name.len() - 5)
}

/// The marker file name of `user`.
pub fn marker_file_name(user: &str) -> (r: String)
    ensures
        r@ == marker_name(user@),
{
    let mut r = user.to_owned();
    push_char(&mut r, '.');
    push_char(&mut r, 'm');
    push_char(&mut r, 'h');
    push_char(&mut r, 'z');
    push_char(&mut r, 'd');
    assert(r@ =~= marker_name(user@));
    r
}

/// Whether a file name found in the slot is a marker file.
pub fn is_marker(name: &str) -> (r: bool)
    ensures
        r == has_marker_ext(name@),
        r ==> name@.len() >= 6,
{
    let n = name.unicode_len();
    if n < 6 {
        proof {
            if has_marker_ext(name@) {
                let i = choose|i: int|
                    0 < i < name@.len() && name@[i] == '.' && #[trigger] name@.subrange(
                        i + 1,
                        name@.len() as int,
                    ) == marker_ext();
                assert(name@.subrange(i + 1, name@.len() as int).len() == 4);
            }
        }
        return false;
    }
    let r = name.get_char(n - 5) == '.' && name.get_char(n - 4) == 'm' && name.get_char(n - 3)
        == 'h' && name.get_char(n - 2) == 'z' && name.get_char(n - 1) == 'd';
    proof {
        let s = name@;
        let k = n - 5;
        if r {
            assert(s.subrange(k + 1, s.len() as int) =~= marker_ext());
        }
        if has_marker_ext(s) {
            let i = choose|i: int|
                0 < i < s.len() && s[i] == '.' && #[trigger] s.subrange(i + 1, s.len() as int)
                    == marker_ext();
            let t = s.subrange(i + 1, s.len() as int);
            assert(t.len() == 4);
            assert(i == k);
            assert(t[0] == 'm' && t[1] == 'h' && t[2] == 'z' && t[3] == 'd');
            assert(s[k + 1] == t[0]);
            assert(s[k + 2] == t[1]);
            assert(s[k + 3] == t[2]);
            assert(s[k + 4] == t[3]);
        }
    }
    r
}

/// The first `len` characters of `name`.
fn prefix(name: &str, len: usize) -> (r: String)
    requires
        len <= name@.len(),
    ensures
        r@ == name@.subrange(0, len as int),
{
    let mut r = String::new();
    let mut i: usize = 0;
    assert(r@ =~= name@.subrange(0, 0));
    while i < len
        invariant
            len <= name@.len(),
            i <= len,
            r@ == name@.subrange(0, i as int),
        decreases len - i,
    {
        push_char(&mut r, name.get_char(i));
        assert(r@ =~= name@.subrange(0, i + 1));
        i = i + 1;
    }
    r
}

/// The user that a file name in the slot marks as active, if it is a marker.
pub fn marker_user(name: &str) -> (r: Option<String>)
    ensures
        r is Some <==> has_marker_ext(name@),
        r is Some ==> r->0@ == user_of(name@),
{
    if is_marker(name) {
        Some(prefix(name, name.unicode_len() - 5))
    } else {
        None
    }
}

} // verus!
