//! Small string helpers shared by the text-producing modules: character sequences,
//! string equality and appending a single character.
use vstd::prelude::*;
use vstd::std_specs::iter::IteratorSpec;

verus! {

broadcast use vstd::string::group_string_axioms;

/// The characters of `s`, in order.
pub fn chars_of(s: &str) -> (r: Vec<char>)
    ensures
        r@ == s@,
{
    let mut r: Vec<char> = Vec::new();
    let mut it = s.chars();
    let ghost full = s@;
    loop
        invariant
            it.remaining() == full.skip(r@.len() as int),
            r@ == full.take(r@.len() as int),
            r@.len() <= full.len(),
            it.decrease() is Some,
        ensures
            r@ == full,
        decreases it.decrease()->0,
    {
        let ghost before = it.remaining();
        match it.next() {
            Some(c) => {
                proof {
                    assert(full.skip(r@.len() as int)[0] == full[r@.len() as int]);
                }
                r.push(c);
                proof {
                    assert(r@ =~= full.take(r@.len() as int));
                    assert(full.skip(r@.len() - 1).drop_first() =~= full.skip(r@.len() as int));
                }
            },
            None => {
                proof {
                    assert(r@ =~= full);
                }
                break;
            },
        }
    }
    r
}

/// Whether `a` and `b` hold the same characters.
pub fn same_str(a: &str, b: &str) -> (r: bool)
    ensures
        r == (a@ == b@),
{
    let x = a.to_owned();
    let y = b.to_owned();
    x == y
}

/// Appends `c` to `s` (`String::push`, which vstd gives no specification).
#[verifier::external_body]
pub(crate) fn push_char(s: &mut String, c: char)
    ensures
        final(s)@ == old(s)@.push(c),
{
    s.push(c);
}

/// Printable ASCII other than `"` and a backslash: text that `Debug` prints unescaped.
pub open spec fn debug_plain(s: Seq<char>) -> bool {
    forall|i: int| 0 <= i < s.len() ==> ' ' <= #[trigger] s[i] <= '~' && s[i] != '"' && s[i] != '\\'
}

/// `s` as `Debug` prints a string (`format!("{:?}", s)`): in double quotes, with
/// `char::escape_debug`'s escapes. Only the unescaped case is stated.
#[verifier::external_body]
pub(crate) fn debug_str(s: &str) -> (r: String)
    ensures
        debug_plain(s@) ==> r@ == seq!['"'] + s@ + seq!['"'],
{
    format!("{:?}", s)
}

/// Appends `t` to `s`.
pub fn push_str(s: &mut String, t: &str)
    ensures
        final(s)@ == old(s)@ + t@,
{
    s.append(t);
}

} // verus!
