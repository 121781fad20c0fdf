//! Typing a seed on the keyboard: digits accumulate, backspace erases the
//! last one, enter submits the seed (when the text reads as a `u32`) and
//! starts over.

use vstd::prelude::*;

verus! {

/// The text typed so far.
pub struct TypedSeed(pub Vec<char>);

/// A key press, as far as seed typing is concerned.
pub enum SeedKey {
    /// A key that produces text.
    Character(String),
    Backspace,
    Enter,
    Other,
}

pub open spec fn is_digit(c: char) -> bool {
    '0' <= c <= '9'
}

pub open spec fn all_digits(s: Seq<char>) -> bool {
    forall|i: int| 0 <= i < s.len() ==> is_digit(#[trigger] s[i])
}

/// The number that a string of decimal digits writes.
pub open spec fn digits_value(s: Seq<char>) -> nat
    decreases s.len(),
{
    if s.len() == 0 {
        0
    } else {
        digits_value(s.drop_last()) * 10 + ((s.last() as int - '0' as int) as nat)
    }
}

/// The digits of a `u32` as `str::parse` reads them: an optional `+`, then
/// one or more decimal digits.
pub open spec fn unsigned_digits(s: Seq<char>) -> Seq<char> {
    if s.len() > 0 && s[0] == '+' {
        s.drop_first()
    } else {
        s
    }
}

/// What `str::parse::<u32>` makes of a text: the number, when the text is
/// an optional `+` and one or more decimal digits whose value fits.
pub open spec fn parse_u32(s: Seq<char>) -> Option<u32> {
    let d = unsigned_digits(s);
    if d.len() > 0 && all_digits(d) && digits_value(d) <= u32::MAX {
        Some(digits_value(d) as u32)
    } else {
        None
    }
}

/// The typed text after a key press.
pub open spec fn typed_after(typed: Seq<char>, key: SeedKey) -> Seq<char> {
    match key {
        SeedKey::Character(c) => if all_digits(c@) {
            typed + c@
        } else {
            typed
        },
        SeedKey::Backspace => if typed.len() > 0 {
            typed.drop_last()
        } else {
            typed
        },
        SeedKey::Enter => Seq::empty(),
        SeedKey::Other => typed,
    }
}

/// The seed a key press submits: on enter, the typed text read as a `u32`.
pub open spec fn submitted(typed: Seq<char>, key: SeedKey) -> Option<u32> {
    match key {
        SeedKey::Enter => parse_u32(typed),
        _ => None,
    }
}

proof fn lemma_digits_prefix_grows(s: Seq<char>, k: int, n: int)
    requires
        all_digits(s),
        0 <= k <= n <= s.len(),
    ensures
        digits_value(s.take(k)) <= digits_value(s.take(n)),
    decreases n - k,
{
    if k < n {
        lemma_digits_prefix_grows(s, k, n - 1);
        assert(s.take(n).drop_last() =~= s.take(n - 1));
        let v = digits_value(s.take(n - 1));
        assert(v <= v * 10) by (nonlinear_arith)
            requires
                v >= 0,
        ;
    }
}

/// The value of `s` as a `u32`, when `s` is one or more decimal digits
/// whose value fits.
fn read_digits(s: &Vec<char>, start: usize) -> (r: Option<u32>)
    requires
        start <= s.len(),
    ensures
        r == (if s@.skip(start as int).len() > 0 && all_digits(s@.skip(start as int)) && digits_value(
            s@.skip(start as int),
        ) <= u32::MAX {
            Some(digits_value(s@.skip(start as int)) as u32)
        } else {
            None::<u32>
        }),
{
    let ghost d = s@.skip(start as int);
    if start == s.len() {
        return None;
    }
    let mut value: u64 = 0;
    let mut i: usize = start;
    while i < s.len()
        invariant
            start <= i <= s.len(),
            d == s@.skip(start as int),
            all_digits(d.take(i - start)),
            value == digits_value(d.take(i - start)),
            value <= u32::MAX,
        decreases s.len() - i,
    {
        let c = s[i];
        proof {
            assert(d.take(i - start + 1).drop_last() =~= d.take(i - start));
            assert(d.take(i - start + 1).last() == c);
        }
        if !('0' <= c && c <= '9') {
            proof {
                assert(!is_digit(d[i - start]));
            }
            return None;
        }
        let digit = (c as u32 - '0' as u32) as u64;
        let next = value * 10 + digit;
        if next > 4294967295u64 {
            proof {
                assert(digits_value(d.take(i - start + 1)) == next);
                if all_digits(d) {
                    lemma_digits_prefix_grows(d, i - start + 1, d.len() as int);
                    assert(d.take(d.len() as int) =~= d);
                }
            }
            return None;
        }
        value = next;
        i += 1;
        proof {
            assert forall|j: int| 0 <= j < i - start implies is_digit(#[trigger] d.take(i - start)[j]) by {
                if j < i - start - 1 {
                    assert(d.take(i - start)[j] == d.take(i - start - 1)[j]);
                }
            }
        }
    }
    proof {
        assert(d.take(i - start) =~= d);
    }
    Some(value as u32)
}

/// `str::parse::<u32>` on the characters of `s`.
pub fn parse_seed(s: &Vec<char>) -> (r: Option<u32>)
    ensures
        r == parse_u32(s@),
{
    if s.len() > 0 && s[0] == '+' {
        proof {
            assert(s@.skip(1) =~= s@.drop_first());
        }
        read_digits(s, 1)
    } else {
        proof {
            assert(s@.skip(0) =~= s@);
        }
        read_digits(s, 0)
    }
}

/// Whether every character of `text` is a decimal digit.
fn text_is_digits(text: &String) -> (r: bool)
    ensures
        r == all_digits(text@),
{
    let t = text.as_str();
    let n = t.unicode_len();
    let mut i: usize = 0;
    while i < n
        invariant
            n == text@.len(),
            t@ == text@,
            0 <= i <= n,
            forall|j: int| 0 <= j < i ==> is_digit(#[trigger] text@[j]),
        decreases n - i,
    {
        let c = t.get_char(i);
        if !('0' <= c && c <= '9') {
            return false;
        }
        i += 1;
    }
    true
}

impl TypedSeed {
    /// Nothing typed yet.
    pub fn new() -> (r: Self)
        ensures
            r.0@ == Seq::<char>::empty(),
    {
        TypedSeed(Vec::new())
    }

    /// Takes a key press: text made only of digits is appended, backspace
    /// erases the last character, enter submits the typed text read as a
    /// `u32` (if it reads as one) and clears it; other keys do nothing.
    pub fn key_pressed(&mut self, key: &SeedKey) -> (r: Option<u32>)
        ensures
            final(self).0@ == typed_after(old(self).0@, *key),
            r == submitted(old(self).0@, *key),
    {
        match key {
            SeedKey::Character(c) => {
                if text_is_digits(c) {
                    let t = c.as_str();
                    let n = t.unicode_len();
                    let ghost start = self.0@;
                    let mut i: usize = 0;
                    while i < n
                        invariant
                            n == c@.len(),
                            t@ == c@,
                            0 <= i <= n,
                            self.0@ == start + c@.take(i as int),
                        decreases n - i,
                    {
                        self.0.push(t.get_char(i));
                        i += 1;
                        proof {
                            assert(self.0@ =~= start + c@.take(i as int));
                        }
                    }
                    proof {
                        assert(c@.take(n as int) =~= c@);
                    }
                }
                None
            },
            SeedKey::Backspace => {
                self.0.pop();
                proof {
                    assert(old(self).0@.len() > 0 ==> self.0@ =~= old(self).0@.drop_last());
                }
                None
            },
            SeedKey::Enter => {
                let r = parse_seed(&self.0);
                self.0.clear();
                r
            },
            SeedKey::Other => None,
        }
    }
}

/// Law: starting from digits only, the typed text holds digits only after
/// any key press.
pub proof fn law_typed_text_stays_digits(typed: Seq<char>, key: SeedKey)
    requires
        all_digits(typed),
    ensures
        all_digits(typed_after(typed, key)),
{
    match key {
        SeedKey::Character(c) => {
            if all_digits(c@) {
                assert forall|i: int| 0 <= i < (typed + c@).len() implies is_digit(#[trigger] (typed + c@)[i]) by {
                    if i >= typed.len() {
                        assert((typed + c@)[i] == c@[i - typed.len()]);
                    }
                }
            }
        },
        SeedKey::Backspace => {
            if typed.len() > 0 {
                assert forall|i: int| 0 <= i < typed.drop_last().len() implies is_digit(
                    #[trigger] typed.drop_last()[i],
                ) by {
                    assert(typed.drop_last()[i] == typed[i]);
                }
            }
        },
        _ => {},
    }
}

} // verus!
