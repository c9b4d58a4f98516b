//! Character-level helpers shared by the discovery parser and the state
//! codec.

use vstd::prelude::*;
use vstd::string::StrSliceExecFns;

verus! {

/// Copy the characters of a string slice into a vector, so that the
/// parsers can index them directly.
pub fn str_to_chars(s: &str) -> (v: Vec<char>)
    ensures
        v@ == s@,
{
    let n = s.unicode_len();
    let mut v: Vec<char> = Vec::new();
    let mut i: usize = 0;
    while i < n
        invariant
            i <= n,
            n == s@.len(),
            v@ == s@.take(i as int),
        decreases n - i,
    {
        let c = s.get_char(i);
        v.push(c);
        proof {
            assert(v@ =~= s@.take(i + 1));
        }
        i = i + 1;
    }
    proof {
        assert(s@.take(n as int) =~= s@);
    }
    v
}

/// Relies on String::push: appends exactly the given character.
#[verifier::external_body]
pub fn push_char(s: &mut String, c: char)
    ensures
        final(s)@ == old(s)@.push(c),
{
    s.push(c);
}

/// Append the characters `cs[from..to]` to a string.
pub fn push_char_range(s: &mut String, cs: &Vec<char>, from: usize, to: usize)
    requires
        from <= to <= cs.len(),
    ensures
        final(s)@ == old(s)@ + cs@.subrange(from as int, to as int),
{
    let mut t = from;
    while t < to
        invariant
            from <= t <= to <= cs.len(),
            s@ == old(s)@ + cs@.subrange(from as int, t as int),
        decreases to - t,
    {
        push_char(s, cs[t]);
        proof {
            assert(old(s)@ + cs@.subrange(from as int, t + 1) =~= (old(s)@
                + cs@.subrange(from as int, t as int)).push(cs@[t as int]));
        }
        t = t + 1;
    }
}

} // verus!
