//! Patterns in texts, found by the regex crate: the name of a HID device in a
//! path, and the fields of the descriptor that the kernel gives for a device.

use crate::text::is_upper_or_digit;
use regex::Regex;
use vstd::prelude::*;

verus! {

/// The pattern of the name of a HID device in sysfs: bus, vendor, product and
/// number, four characters each.
pub open spec fn sysname_pattern() -> Seq<char> {
    "[A-Z0-9]{4}:[A-Z0-9]{4}:[A-Z0-9]{4}\\.[A-Z0-9]{4}"@
}

/// At `at` the text holds the name of a HID device: `XXXX:XXXX:XXXX.XXXX`,
/// each `X` an upper-case letter or a digit.
pub open spec fn sysname_at(s: Seq<char>, at: int) -> bool {
    &&& 0 <= at
    &&& at + 19 <= s.len()
    &&& forall|k: int|
        0 <= k < 19 ==> if k == 4 || k == 9 {
            #[trigger] s[at + k] == ':'
        } else if k == 14 {
            s[at + k] == '.'
        } else {
            is_upper_or_digit(s[at + k])
        }
}

/// The text holds the name of a HID device somewhere.
pub open spec fn contains_sysname(s: Seq<char>) -> bool {
    exists|at: int| sysname_at(s, at)
}

/// What the first match of the pattern in the text captured, as the regex
/// crate finds it: the whole match, then each group of the pattern, `None`
/// for a group that took no part. `None` where the pattern matches nowhere in
/// the text, or is no pattern to the crate.
pub uninterp spec fn regex_captures(pattern: Seq<char>, text: Seq<char>) -> Option<
    Seq<Option<Seq<char>>>,
>;

/// The captured texts as the contracts see them.
pub open spec fn group_texts(groups: Option<Vec<Option<String>>>) -> Option<
    Seq<Option<Seq<char>>>,
> {
    match groups {
        Some(all) => Some(
            all@.map_values(
                |g: Option<String>|
                    match g {
                        Some(text) => Some(text@),
                        None => None,
                    },
            ),
        ),
        None => None,
    }
}

/// `Regex::new` of the regex crate on the pattern, `Regex::captures` of the
/// result on the text, and each group that `Captures::iter` yields as a text
/// of its own. A pattern that the crate refuses gives `None`, as does a text
/// in which the pattern matches nowhere. The outcome depends on the pattern
/// and the text alone. For the pattern of device names it is claimed that the
/// crate accepts it and that it matches exactly the texts that hold
/// `XXXX:XXXX:XXXX.XXXX` somewhere: a class `[A-Z0-9]` with `{4}` behind it
/// stands for four characters of the class, `\.` for a dot, and a search is
/// not anchored.
#[verifier::external_body]
pub(crate) fn captures(pattern: &str, text: &str) -> (r: Option<Vec<Option<String>>>)
    ensures
        group_texts(r) == regex_captures(pattern@, text@),
        pattern@ == sysname_pattern() ==> (r is Some <==> contains_sysname(text@)),
{
    match Regex::new(pattern) {
        Ok(re) => re.captures(text).map(
            |found| found.iter().map(|group| group.map(|m| m.as_str().to_string())).collect(),
        ),
        Err(_) => None,
    }
}

} // verus!
