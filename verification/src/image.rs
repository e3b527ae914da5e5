//! The codec of image values: from the number of an image to the path of
//! its file.

use crate::naming::{all_digits, all_digits_chars};
use crate::text::{chars_of, spells, string_of, trim_chars, trimmed};
use vstd::prelude::*;

verus! {

/// A run of `n` zeros.
pub open spec fn zeros(n: nat) -> Seq<char> {
    Seq::new(n, |i: int| '0')
}

/// A number of at most six digits, filled with zeros from the left to six
/// digits.
pub open spec fn padded_number(digits: Seq<char>) -> Seq<char> {
    zeros((6 - digits.len()) as nat) + digits
}

/// The path of the image file for a padded number: a folder named by the
/// first three digits and `000`, and a file named by the number.
pub open spec fn image_file(padded: Seq<char>) -> Seq<char> {
    padded.take(3) + "000"@ + "/"@ + padded + ".png"@
}

/// The path for an image value. There is none for an empty value, for `0`,
/// for a value of more than six characters and for one that is not made of
/// decimal digits; white space around the value does not count.
pub open spec fn image_path_of(value: Seq<char>) -> Option<Seq<char>> {
    let t = trimmed(value);
    if t.len() == 0 || t == "0"@ || t.len() > 6 || !all_digits(t) {
        None
    } else {
        Some(image_file(padded_number(t)))
    }
}

/// The path of the image file for an image value such as `65002`, which
/// gives `065000/065002.png`.
pub fn encode_image_path(value: &str) -> (r: Option<String>)
    ensures
        r.is_some() == image_path_of(value@).is_some(),
        r.is_some() ==> r.unwrap()@ == image_path_of(value@).unwrap(),
{
    let t = trim_chars(&chars_of(value));
    if t.len() == 0 || spells(&t, "0") || t.len() > 6 || !all_digits_chars(&t) {
        return None;
    }
    let mut padded: Vec<char> = Vec::new();
    let fill: usize = 6 - t.len();
    let mut i: usize = 0;
    while i < fill
        invariant
            i <= fill,
            padded@ =~= zeros(i as nat),
        decreases fill - i,
    {
        padded.push('0');
        i = i + 1;
    }
    let mut k: usize = 0;
    while k < t.len()
        invariant
            k <= t.len(),
            fill + t.len() == 6,
            padded@ =~= zeros(fill as nat) + t@.take(k as int),
        decreases t.len() - k,
    {
        padded.push(t[k]);
        k = k + 1;
    }
    assert(t@.take(k as int) =~= t@);
    assert(padded@ == padded_number(t@));
    assert(padded.len() == 6);
    proof {
        reveal_strlit("000");
        reveal_strlit("/");
        reveal_strlit(".png");
    }
    let mut out: Vec<char> = Vec::new();
    out.push(padded[0]);
    out.push(padded[1]);
    out.push(padded[2]);
    out.push('0');
    out.push('0');
    out.push('0');
    out.push('/');
    let ghost head = out@;
    assert(head =~= padded@.take(3) + "000"@ + "/"@);
    let mut j: usize = 0;
    while j < 6
        invariant
            j <= 6,
            padded.len() == 6,
            out@ =~= head + padded@.take(j as int),
        decreases 6 - j,
    {
        out.push(padded[j]);
        j = j + 1;
    }
    assert(padded@.take(6) =~= padded@);
    out.push('.');
    out.push('p');
    out.push('n');
    out.push('g');
    assert(out@ =~= image_file(padded@));
    Some(string_of(&out))
}

} // verus!
