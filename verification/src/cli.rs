//! The instance size classes named on the command line.

use vstd::prelude::*;

verus! {

/// The three standard instance sizes.
#[derive(Copy, Clone, PartialEq, Eq, Structural, Debug)]
pub enum InputType {
    Small,
    Medium,
    Large,
}

/// Character-wise string equality.
fn str_eq(s: &str, t: &str) -> (r: bool)
    ensures
        r == (s@ == t@),
{
    let n = s.unicode_len();
    let m = t.unicode_len();
    if n != m {
        return false;
    }
    let mut i: usize = 0;
    while i < n
        invariant
            i <= n,
            n == s@.len(),
            n == t@.len(),
            forall|k: int| 0 <= k < i ==> s@[k] == t@[k],
        decreases n - i,
    {
        if s.get_char(i) != t.get_char(i) {
            return false;
        }
        i += 1;
    }
    proof {
        assert(s@ =~= t@);
    }
    true
}

/// Checks that an instance id lies in the valid range, 1 to 239.
pub fn check_id_range(id: u8) -> (r: Result<bool, String>)
    ensures
        r is Ok <==> 1 <= id <= 239,
        r is Ok ==> r.unwrap() == true,
{
    if 1 <= id && id <= 239 {
        Ok(true)
    } else {
        Err(String::from_str("Id must be an integer between 1 and 239"))
    }
}

/// Parses an instance size given on the command line: `small`/`s`,
/// `medium`/`m` or `large`/`l`. Anything else is rejected with a usage
/// message.
pub fn input_size_from_string(input: &str) -> (r: Result<InputType, String>)
    ensures
        match r {
            Ok(InputType::Small) => input@ == "small"@ || input@ == "s"@,
            Ok(InputType::Medium) => input@ == "medium"@ || input@ == "m"@,
            Ok(InputType::Large) => input@ == "large"@ || input@ == "l"@,
            Err(_) => !(input@ == "small"@ || input@ == "s"@ || input@ == "medium"@ || input@
                == "m"@ || input@ == "large"@ || input@ == "l"@),
        },
{
    if str_eq(input, "small") || str_eq(input, "s") {
        Ok(InputType::Small)
    } else if str_eq(input, "medium") || str_eq(input, "m") {
        Ok(InputType::Medium)
    } else if str_eq(input, "large") || str_eq(input, "l") {
        Ok(InputType::Large)
    } else {
        Err(String::from_str("Input size needs to be \nsmall (s)\nmedium (m)\nlarge(l)"))
    }
}

} // verus!
