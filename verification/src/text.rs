use vstd::prelude::*;

verus! {

/// Relies on String::push: appends exactly the one given character.
#[verifier::external_body]
pub(crate) fn string_push(s: &mut String, c: char)
    ensures
        final(s)@ == old(s)@.push(c),
{
    s.push(c);
}

/// Builds a string out of a vector of characters, in order.
pub fn chars_to_string(chars: &Vec<char>) -> (r: String)
    ensures
        r@ == chars@,
{
    let mut s = String::new();
    let mut idx: usize = 0;
    while idx < chars.len()
        invariant
            0 <= idx <= chars@.len(),
            s@ == chars@.take(idx as int),
        decreases chars@.len() - idx,
    {
        string_push(&mut s, chars[idx]);
        proof {
            assert(chars@.take(idx as int).push(chars@[idx as int]) =~= chars@.take(idx + 1));
        }
        idx = idx + 1;
    }
    proof {
        assert(chars@.take(chars@.len() as int) =~= chars@);
    }
    s
}

} // verus!
