use vstd::prelude::*;
use vstd::string::StringSliceAdditionalSpecFns;

use crate::fen::{digits_value, is_digit};

verus! {

/// Whether every character of `d` is a decimal digit.
pub open spec fn all_digits(d: Seq<u8>) -> bool {
    forall|i: int| 0 <= i < d.len() ==> is_digit(#[trigger] d[i])
}

/// `s` without a leading `+` or `-`.
pub open spec fn sign_stripped(s: Seq<u8>) -> Seq<u8> {
    if s.len() > 0 && (s[0] == 43 || s[0] == 45) {
        s.drop_first()
    } else {
        s
    }
}

/// What `i32::from_str` reads from `s`: an optional sign, then at least one digit, for a
/// value within the range of `i32`; `None` for anything else.
pub open spec fn i32_text(s: Seq<u8>) -> Option<int> {
    let d = sign_stripped(s);
    let v = if s.len() > 0 && s[0] == 45 {
        -(digits_value(d) as int)
    } else {
        digits_value(d) as int
    };
    if d.len() == 0 || !all_digits(d) {
        None
    } else if i32::MIN <= v <= i32::MAX {
        Some(v)
    } else {
        None
    }
}

pub proof fn lemma_digits_prefix_mono(d: Seq<u8>, i: int)
    requires
        0 <= i <= d.len(),
        forall|k: int| 0 <= k < d.len() ==> is_digit(#[trigger] d[k]),
    ensures
        digits_value(d.take(i)) <= digits_value(d),
    decreases d.len(),
{
    if i < d.len() {
        assert(d.drop_last().take(i) =~= d.take(i));
        lemma_digits_prefix_mono(d.drop_last(), i);
    } else {
        assert(d.take(i) =~= d);
    }
}

/// Reads an `i32` as `i32::from_str` does.
pub fn parse_i32(text: &str) -> (r: Option<i32>)
    ensures
        r == match i32_text(text.spec_bytes()) {
            Some(v) => Some(v as i32),
            None => None::<i32>,
        },
{
    let bytes = text.as_bytes();
    let ghost s = bytes@;
    if bytes.len() == 0 {
        return None;
    }
    let negative = bytes[0] == 45;
    let mut i: usize = if bytes[0] == 43 || bytes[0] == 45 { 1 } else { 0 };
    let start = i;
    let ghost d = s.subrange(start as int, s.len() as int);
    proof {
        if s[0] == 43 || s[0] == 45 {
            assert(d =~= s.drop_first());
        } else {
            assert(d =~= s);
        }
    }
    if i == bytes.len() {
        return None;
    }
    let mut value: u64 = 0;
    while i < bytes.len()
        invariant
            s == bytes@,
            s == text.spec_bytes(),
            s.len() > 0,
            negative == (s[0] == 45),
            d == sign_stripped(s),
            d.len() > 0,
            start <= i <= s.len(),
            start == if s[0] == 43 || s[0] == 45 { 1usize } else { 0usize },
            d == s.subrange(start as int, s.len() as int),
            forall|k: int| 0 <= k < i - start ==> is_digit(#[trigger] d[k]),
            value == digits_value(d.take(i - start)),
            value <= 2147483648,
        decreases s.len() - i,
    {
        let c = bytes[i];
        proof {
            assert(d[i - start] == c);
            assert(d.take(i - start + 1).drop_last() =~= d.take(i - start));
        }
        if c < 48 || c > 57 {
            proof {
                assert(!is_digit(d[i - start]));
                assert(!all_digits(d));
                assert(i32_text(s) == None::<int>);
            }
            return None;
        }
        value = value * 10 + (c - 48) as u64;
        i = i + 1;
        if value > 2147483648 {
            proof {
                assert(value == digits_value(d.take(i - start)));
                if all_digits(d) {
                    lemma_digits_prefix_mono(d, i - start);
                    assert(digits_value(d) > 2147483648);
                }
                assert(i32_text(s) == None::<int>);
            }
            return None;
        }
    }
    proof {
        assert(d.take(i - start) =~= d);
    }
    if negative {
        Some((0 - value as i64) as i32)
    } else if value > 2147483647 {
        None
    } else {
        Some(value as i32)
    }
}

/// What `bool::from_str` reads from `s`: `true` or `false` exactly.
pub open spec fn bool_text(s: Seq<u8>) -> Option<bool> {
    if s =~= seq![116u8, 114u8, 117u8, 101u8] {
        Some(true)
    } else if s =~= seq![102u8, 97u8, 108u8, 115u8, 101u8] {
        Some(false)
    } else {
        None
    }
}

/// Reads a `bool` as `bool::from_str` does.
pub fn parse_bool(text: &str) -> (r: Option<bool>)
    ensures
        r == bool_text(text.spec_bytes()),
{
    let bytes = text.as_bytes();
    if bytes.len() == 4 && bytes[0] == 116 && bytes[1] == 114 && bytes[2] == 117 && bytes[3] == 101 {
        proof {
            assert(bytes@ =~= seq![116u8, 114u8, 117u8, 101u8]);
        }
        Some(true)
    } else if bytes.len() == 5 && bytes[0] == 102 && bytes[1] == 97 && bytes[2] == 108 && bytes[3] == 115 && bytes[4] == 101 {
        proof {
            assert(bytes@ =~= seq![102u8, 97u8, 108u8, 115u8, 101u8]);
        }
        Some(false)
    } else {
        proof {
            if bytes@ =~= seq![116u8, 114u8, 117u8, 101u8] {
                assert(bytes@[0] == 116u8 && bytes@[1] == 114u8 && bytes@[2] == 117u8 && bytes@[3] == 101u8);
            }
            if bytes@ =~= seq![102u8, 97u8, 108u8, 115u8, 101u8] {
                assert(bytes@[0] == 102u8 && bytes@[1] == 97u8 && bytes@[2] == 108u8 && bytes@[3] == 115u8 && bytes@[4] == 101u8);
            }
        }
        None
    }
}

/// The outcome of setting an option from text.
#[derive(Clone, Copy, PartialEq, Eq, Structural, Debug)]
pub enum OptionUpdate {
    /// The option took the new value.
    Updated,
    /// The value was read but lies outside the option's range; the option kept its value.
    OutOfRange,
    /// The text is no value of the option's type; the option kept its value.
    Invalid,
}

/// An engine option that can be set from the text of a `setoption` command.
pub trait OptionTrait {
    type ValueType;

    fn set(&mut self, new_value: &str) -> OptionUpdate;

    fn get(&self) -> Self::ValueType;
}

/// An integer option with a default and a range.
pub struct SpinOptionInt {
    value: i32,
    default: i32,
    min: i32,
    max: i32,
}

impl SpinOptionInt {
    pub closed spec fn value(&self) -> i32 {
        self.value
    }

    pub closed spec fn default_value(&self) -> i32 {
        self.default
    }

    pub closed spec fn min_value(&self) -> i32 {
        self.min
    }

    pub closed spec fn max_value(&self) -> i32 {
        self.max
    }

    pub fn new(value: i32, min: i32, max: i32) -> (r: Self)
        ensures
            r.value() == value,
            r.default_value() == value,
            r.min_value() == min,
            r.max_value() == max,
    {
        Self { value, default: value, min, max }
    }

    /// Takes `new_value` when it lies within the range; true exactly then.
    pub fn set_value(&mut self, new_value: i32) -> (r: bool)
        ensures
            r == (old(self).min_value() <= new_value <= old(self).max_value()),
            final(self).value() == if r { new_value } else { old(self).value() },
            final(self).default_value() == old(self).default_value(),
            final(self).min_value() == old(self).min_value(),
            final(self).max_value() == old(self).max_value(),
    {
        if new_value >= self.min && new_value <= self.max {
            self.value = new_value;
            true
        } else {
            false
        }
    }

    pub fn get(&self) -> (r: i32)
        ensures
            r == self.value(),
    {
        self.value
    }

    pub fn get_default(&self) -> (r: i32)
        ensures
            r == self.default_value(),
    {
        self.default
    }

    pub fn get_min(&self) -> (r: i32)
        ensures
            r == self.min_value(),
    {
        self.min
    }

    pub fn get_max(&self) -> (r: i32)
        ensures
            r == self.max_value(),
    {
        self.max
    }
}

impl OptionTrait for SpinOptionInt {
    type ValueType = i32;

    /// Reads an `i32` and takes it when it lies within the range.
    fn set(&mut self, new_value: &str) -> (r: OptionUpdate)
        ensures
            match i32_text(new_value.spec_bytes()) {
                None => r == OptionUpdate::Invalid && final(self).value() == old(self).value(),
                Some(v) => if old(self).min_value() <= v <= old(self).max_value() {
                    r == OptionUpdate::Updated && final(self).value() == v
                } else {
                    r == OptionUpdate::OutOfRange && final(self).value() == old(self).value()
                },
            },
            final(self).default_value() == old(self).default_value(),
            final(self).min_value() == old(self).min_value(),
            final(self).max_value() == old(self).max_value(),
    {
        match parse_i32(new_value) {
            Some(parsed_value) => {
                if self.set_value(parsed_value) {
                    OptionUpdate::Updated
                } else {
                    OptionUpdate::OutOfRange
                }
            },
            None => OptionUpdate::Invalid,
        }
    }

    fn get(&self) -> (r: i32)
        ensures
            r == self.value(),
    {
        self.value
    }
}

/// A yes-or-no option with a default.
pub struct CheckOption {
    value: bool,
    default: bool,
}

impl CheckOption {
    pub closed spec fn value(&self) -> bool {
        self.value
    }

    pub closed spec fn default_value(&self) -> bool {
        self.default
    }

    pub fn new(value: bool) -> (r: Self)
        ensures
            r.value() == value,
            r.default_value() == value,
    {
        Self { value, default: value }
    }

    pub fn set_value(&mut self, new_value: bool)
        ensures
            final(self).value() == new_value,
            final(self).default_value() == old(self).default_value(),
    {
        self.value = new_value;
    }

    pub fn get(&self) -> (r: bool)
        ensures
            r == self.value(),
    {
        self.value
    }

    pub fn get_default(&self) -> (r: bool)
        ensures
            r == self.default_value(),
    {
        self.default
    }
}

impl OptionTrait for CheckOption {
    type ValueType = bool;

    /// Reads `true` or `false`.
    fn set(&mut self, new_value: &str) -> (r: OptionUpdate)
        ensures
            match bool_text(new_value.spec_bytes()) {
                None => r == OptionUpdate::Invalid && final(self).value() == old(self).value(),
                Some(v) => r == OptionUpdate::Updated && final(self).value() == v,
            },
            final(self).default_value() == old(self).default_value(),
    {
        match parse_bool(new_value) {
            Some(parsed_value) => {
                self.set_value(parsed_value);
                OptionUpdate::Updated
            },
            None => OptionUpdate::Invalid,
        }
    }

    fn get(&self) -> (r: bool)
        ensures
            r == self.value(),
    {
        self.value
    }
}

/// A text option with a default.
pub struct StringOption {
    value: String,
    default: String,
}

impl StringOption {
    pub closed spec fn value(&self) -> Seq<char> {
        self.value@
    }

    pub closed spec fn default_value(&self) -> Seq<char> {
        self.default@
    }

    pub fn new(value: String) -> (r: Self)
        ensures
            r.value() == value@,
            r.default_value() == value@,
    {
        Self { value: value.clone(), default: value }
    }

    pub fn set_value(&mut self, new_value: String)
        ensures
            final(self).value() == new_value@,
            final(self).default_value() == old(self).default_value(),
    {
        self.value = new_value;
    }

    pub fn get(&self) -> (r: String)
        ensures
            r@ == self.value(),
    {
        self.value.clone()
    }

    pub fn get_default(&self) -> (r: String)
        ensures
            r@ == self.default_value(),
    {
        self.default.clone()
    }
}

impl OptionTrait for StringOption {
    type ValueType = String;

    /// Takes the text as it is.
    fn set(&mut self, new_value: &str) -> (r: OptionUpdate)
        ensures
            r == OptionUpdate::Updated,
            final(self).value() == new_value@,
            final(self).default_value() == old(self).default_value(),
    {
        self.set_value(new_value.to_owned());
        OptionUpdate::Updated
    }

    fn get(&self) -> (r: String)
        ensures
            r@ == self.value(),
    {
        self.value.clone()
    }
}

} // verus!
