//! Rotation of the ASCII letters through the alphabet, the case kept; every
//! other character is left as it is.
use vstd::prelude::*;

verus! {

/// The number of letters in the alphabet.
pub const RANGE: isize = 26;

/// `c` is one of `A` to `Z`.
pub open spec fn is_upper(c: char) -> bool {
    'A' <= c <= 'Z'
}

/// `c` is one of `a` to `z`.
pub open spec fn is_lower(c: char) -> bool {
    'a' <= c <= 'z'
}

/// The letter `by_n` places after `c` in the alphabet that begins at `first`,
/// going round from the last letter to the first.
pub open spec fn shifted(c: char, first: char, by_n: int) -> char {
    (first as int + (c as int - first as int + by_n) % 26) as char
}

/// `c` rotated by `by_n` places: a letter moves within its own case, any
/// other character stays.
pub open spec fn rotated(c: char, by_n: int) -> char {
    if is_upper(c) {
        shifted(c, 'A', by_n)
    } else if is_lower(c) {
        shifted(c, 'a', by_n)
    } else {
        c
    }
}

/// Rotates one character by less than a full turn, forwards or backwards.
pub fn rot_char(c: char, by_n: isize) -> (r: char)
    requires
        -RANGE < by_n < RANGE,
    ensures
        r == rotated(c, by_n as int),
{
    let upper: bool = 'A' <= c && c <= 'Z';
    let lower: bool = 'a' <= c && c <= 'z';
    if upper || lower {
        // select the appropriate upper and lower bounds
        let (start, end): (isize, isize) = if upper {
            (65, 90)
        } else {
            (97, 122)
        };
        // add n and adjust as necessary back into
        // the proper range of start..=end
        let mut adjusted: isize = (c as u8) as isize + by_n;
        if adjusted < start {
            adjusted += RANGE;
        } else if end < adjusted {
            adjusted -= RANGE;
        }
        (adjusted as u8) as char
    } else {
        c
    }
}

/// Rotates every character of `s` by `by_n` places; any number of full turns
/// is allowed.
pub fn rot_str(s: &mut Vec<char>, by_n: isize)
    ensures
        final(s)@ == old(s)@.map_values(|c: char| rotated(c, by_n as int)),
{
    let ghost before = s@;
    let mut dest: Vec<char> = Vec::with_capacity(s.len());
    let by_n_reduced: isize = by_n % RANGE;
    let mut i: usize = 0;
    while i < s.len()
        invariant
            i <= s@.len(),
            s@ == before,
            -RANGE < by_n_reduced < RANGE,
            (by_n - by_n_reduced) % 26 == 0,
            dest@ == before.subrange(0, i as int).map_values(|c: char| rotated(c, by_n as int)),
        decreases s@.len() - i,
    {
        let c = s[i];
        let r = rot_char(c, by_n_reduced);
        dest.push(r);
        proof {
            assert(rotated(c, by_n_reduced as int) == rotated(c, by_n as int));
            assert(dest@ =~= before.subrange(0, i + 1).map_values(|c: char| rotated(c, by_n as int)));
        }
        i += 1;
    }
    proof {
        assert(before.subrange(0, i as int) =~= before);
    }
    // overwrite old str with new
    *s = dest;
}

} // verus!
