//! Conversions between strings and character vectors.

use vstd::prelude::*;
use vstd::std_specs::iter::IteratorSpec;

verus! {

/// Appends one character to a string, through `String::push` of std, which
/// adds the character at the end and leaves what was there in place.
#[verifier::external_body]
pub(crate) fn push_char(s: &mut String, c: char)
    ensures
        final(s)@ == old(s)@.push(c),
{
    s.push(c)
}

/// Whether two strings hold the same characters.
pub fn same_text(a: &str, b: &str) -> (r: bool)
    ensures
        r == (a@ == b@),
{
    a.to_owned() == b.to_owned()
}

/// The characters of `s`, in order.
pub fn to_chars(s: &str) -> (v: Vec<char>)
    ensures
        v@ == s@,
{
    let mut v: Vec<char> = Vec::new();
    let mut it = s.chars();
    let ghost mut done: Seq<char> = Seq::empty();
    loop
        invariant
            it.obeys_prophetic_iter_laws(),
            it.decrease() is Some,
            v@ == done,
            done + it.remaining() == s@,
        decreases it.decrease()->0,
    {
        broadcast use vstd::string::group_string_axioms;
        let ghost before = it;
        match it.next() {
            Some(c) => {
                proof {
                    assert(done.push(c) + it.remaining() =~= done + before.remaining());
                    done = done.push(c);
                }
                v.push(c);
            },
            None => {
                proof {
                    assert(done + before.remaining() =~= done);
                }
                return v;
            },
        }
    }
}

/// The string made of the characters of `v`, in order.
pub fn from_chars(v: &Vec<char>) -> (s: String)
    ensures
        s@ == v@,
{
    let mut s = String::new();
    let mut i: usize = 0;
    while i < v.len()
        invariant
            i <= v.len(),
            s@ == v@.take(i as int),
        decreases v.len() - i,
    {
        push_char(&mut s, v[i]);
        proof {
            assert(v@.take(i as int).push(v@[i as int]) =~= v@.take(i as int + 1));
        }
        i += 1;
    }
    proof {
        assert(v@.take(v.len() as int) =~= v@);
    }
    s
}

} // verus!
