//! Password complexity policy: a pure predicate over passphrase strings with
//! configurable minima for length, special characters, uppercase letters and
//! digits. Character classes are fixed ASCII sets; counts are per character,
//! while the length minimum is over the UTF-8 byte length of the passphrase.

use vstd::prelude::*;

verus! {

use vstd::utf8::encode_utf8;
use vstd::string::StrSliceExecFns;

/// Caller-supplied override for the policy minima.
#[derive(Clone, Copy, Debug, PartialEq, Eq, Structural)]
pub struct PasswordPolicyConfig {
    pub min_length: usize,
    pub min_number_of_special_chars: usize,
    pub min_number_of_uppercase: usize,
    pub min_number_of_digits: usize,
}

/// The effective policy a storage instance enforces whenever a passphrase is
/// introduced or rotated.
#[derive(Clone, Copy, Debug, PartialEq, Eq, Structural)]
pub struct PasswordPolicy {
    pub min_length: usize,
    pub min_number_of_special_chars: usize,
    pub min_number_of_uppercase: usize,
    pub min_number_of_digits: usize,
}

/// An uppercase Latin letter `A`..=`Z`.
pub open spec fn is_uppercase_char(c: char) -> bool {
    65 <= c as u32 <= 90
}

/// An ASCII decimal digit `0`..=`9`.
pub open spec fn is_digit_char(c: char) -> bool {
    48 <= c as u32 <= 57
}

/// One of the ASCII special characters
/// ``! " # $ % & ' ( ) * + , - . / : ; < = > ? @ [ \ ] ^ _ ` { | } ~``,
/// i.e. the four ASCII punctuation ranges.
pub open spec fn is_special_char(c: char) -> bool {
    ||| 33 <= c as u32 <= 47
    ||| 58 <= c as u32 <= 64
    ||| 91 <= c as u32 <= 96
    ||| 123 <= c as u32 <= 126
}

/// How many characters of `s` satisfy `p`.
pub open spec fn count_matching(s: Seq<char>, p: spec_fn(char) -> bool) -> nat
    decreases s.len(),
{
    if s.len() == 0 {
        0
    } else {
        count_matching(s.drop_last(), p) + (if p(s.last()) {
            1nat
        } else {
            0nat
        })
    }
}

impl PasswordPolicy {
    pub open spec fn spec_min_length(self) -> usize {
        self.min_length
    }

    pub open spec fn spec_min_special(self) -> usize {
        self.min_number_of_special_chars
    }

    pub open spec fn spec_min_uppercase(self) -> usize {
        self.min_number_of_uppercase
    }

    pub open spec fn spec_min_digits(self) -> usize {
        self.min_number_of_digits
    }

    /// The policy predicate: `password` (given as its character sequence) has
    /// at least `min_length` UTF-8 bytes, and at least the configured number
    /// of special, uppercase and digit characters.
    pub open spec fn allows(self, password: Seq<char>) -> bool {
        &&& encode_utf8(password).len() >= self.min_length
        &&& count_matching(password, |c: char| is_special_char(c))
            >= self.min_number_of_special_chars
        &&& count_matching(password, |c: char| is_uppercase_char(c))
            >= self.min_number_of_uppercase
        &&& count_matching(password, |c: char| is_digit_char(c)) >= self.min_number_of_digits
    }

    pub fn new(config: PasswordPolicyConfig) -> (policy: PasswordPolicy)
        ensures
            policy.spec_min_length() == config.min_length,
            policy.spec_min_special() == config.min_number_of_special_chars,
            policy.spec_min_uppercase() == config.min_number_of_uppercase,
            policy.spec_min_digits() == config.min_number_of_digits,
    {
        PasswordPolicy {
            min_length: config.min_length,
            min_number_of_special_chars: config.min_number_of_special_chars,
            min_number_of_uppercase: config.min_number_of_uppercase,
            min_number_of_digits: config.min_number_of_digits,
        }
    }

    /// Whether `password` satisfies the policy. Returns exactly the value of
    /// the `allows` predicate on the password's characters.
    pub fn is_valid(&self, password: &str) -> (valid: bool)
        ensures
            valid == self.allows(password@),
    {
        let byte_len: usize = password.as_bytes().len();
        let char_len: usize = password.unicode_len();
        let mut specials: usize = 0;
        let mut uppers: usize = 0;
        let mut digits: usize = 0;
        let mut i: usize = 0;
        while i < char_len
            invariant
                i <= char_len,
                char_len == password@.len(),
                specials <= i,
                uppers <= i,
                digits <= i,
                specials == count_matching(
                    password@.take(i as int),
                    |c: char| is_special_char(c),
                ),
                uppers == count_matching(
                    password@.take(i as int),
                    |c: char| is_uppercase_char(c),
                ),
                digits == count_matching(password@.take(i as int), |c: char| is_digit_char(c)),
            decreases char_len - i,
        {
            let c = password.get_char(i);
            let code = c as u32;
            proof {
                assert(password@.take(i + 1).drop_last() =~= password@.take(i as int));
                assert(password@.take(i + 1).last() == password@[i as int]);
            }
            if (33 <= code && code <= 47) || (58 <= code && code <= 64) || (91 <= code && code
                <= 96) || (123 <= code && code <= 126) {
                specials = specials + 1;
            }
            if 65 <= code && code <= 90 {
                uppers = uppers + 1;
            }
            if 48 <= code && code <= 57 {
                digits = digits + 1;
            }
            i = i + 1;
        }
        proof {
            assert(password@.take(char_len as int) =~= password@);
        }
        byte_len >= self.min_length && specials >= self.min_number_of_special_chars && uppers
            >= self.min_number_of_uppercase && digits >= self.min_number_of_digits
    }
}

impl Default for PasswordPolicy {
    /// The default minima: 12 bytes of length and 3 characters from each of
    /// the special, uppercase and digit classes.
    fn default() -> (policy: PasswordPolicy)
        ensures
            policy.spec_min_length() == 12,
            policy.spec_min_special() == 3,
            policy.spec_min_uppercase() == 3,
            policy.spec_min_digits() == 3,
    {
        PasswordPolicy {
            min_length: 12,
            min_number_of_special_chars: 3,
            min_number_of_uppercase: 3,
            min_number_of_digits: 3,
        }
    }
}

} // verus!
