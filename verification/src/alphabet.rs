//! Alphabets: which characters count as letters (or letters and digits), and
//! the scrubbing of foreign characters from a word.

use vstd::prelude::*;

verus! {

/// Lowercase letters of the Latin alphabet.
pub open spec fn is_lower_letter(c: char) -> bool {
    c as u32 >= 97 && c as u32 <= 122
}

/// Uppercase letters of the Latin alphabet.
pub open spec fn is_upper_letter(c: char) -> bool {
    c as u32 >= 65 && c as u32 <= 90
}

/// Letters of the Latin alphabet, either case.
pub open spec fn is_letter(c: char) -> bool {
    is_lower_letter(c) || is_upper_letter(c)
}

/// Decimal digits.
pub open spec fn is_decimal(c: char) -> bool {
    c as u32 >= 48 && c as u32 <= 57
}

/// Letters or decimal digits.
pub open spec fn is_letter_or_digit(c: char) -> bool {
    is_letter(c) || is_decimal(c)
}

/// `s` with every character that is not a Latin letter removed.
pub open spec fn letters_of(s: Seq<char>) -> Seq<char>
    decreases s.len(),
{
    if s.len() == 0 {
        Seq::empty()
    } else {
        letters_of(s.drop_last()) + if is_letter(s.last()) {
            seq![s.last()]
        } else {
            Seq::<char>::empty()
        }
    }
}

/// `s` with every character that is neither a Latin letter nor a decimal
/// digit removed.
pub open spec fn alphanumerics_of(s: Seq<char>) -> Seq<char>
    decreases s.len(),
{
    if s.len() == 0 {
        Seq::empty()
    } else {
        alphanumerics_of(s.drop_last()) + if is_letter_or_digit(s.last()) {
            seq![s.last()]
        } else {
            Seq::<char>::empty()
        }
    }
}

/// Keeps only the Latin letters of `w`.
pub fn scrub_letters(w: &Vec<char>) -> (r: Vec<char>)
    ensures
        r@ == letters_of(w@),
{
    let mut out: Vec<char> = Vec::new();
    let mut i: usize = 0;
    while i < w.len()
        invariant
            i <= w.len(),
            out@ == letters_of(w@.take(i as int)),
        decreases w@.len() - i,
    {
        let c = w[i];
        proof {
            let t = w@.take(i + 1);
            assert(t.drop_last() =~= w@.take(i as int));
            assert(t.last() == w@[i as int]);
        }
        let cu = c as u32;
        if (cu >= 97 && cu <= 122) || (cu >= 65 && cu <= 90) {
            out.push(c);
        }
        i = i + 1;
    }
    proof {
        assert(w@.take(w@.len() as int) =~= w@);
    }
    out
}

/// Keeps only the Latin letters and decimal digits of `w`.
pub fn scrub_alphanumerics(w: &Vec<char>) -> (r: Vec<char>)
    ensures
        r@ == alphanumerics_of(w@),
{
    let mut out: Vec<char> = Vec::new();
    let mut i: usize = 0;
    while i < w.len()
        invariant
            i <= w.len(),
            out@ == alphanumerics_of(w@.take(i as int)),
        decreases w@.len() - i,
    {
        let c = w[i];
        proof {
            let t = w@.take(i + 1);
            assert(t.drop_last() =~= w@.take(i as int));
            assert(t.last() == w@[i as int]);
        }
        let cu = c as u32;
        if (cu >= 97 && cu <= 122) || (cu >= 65 && cu <= 90) || (cu >= 48 && cu <= 57) {
            out.push(c);
        }
        i = i + 1;
    }
    proof {
        assert(w@.take(w@.len() as int) =~= w@);
    }
    out
}

/// An alphabet: a finite set of characters, each with a position.
pub trait Alphabet {
    /// Whether `c` belongs to the alphabet.
    spec fn char_ok(&self, c: char) -> bool;

    /// The position of a member character.
    spec fn pos_spec(&self, c: char) -> int;

    /// `s` with every character outside the alphabet removed.
    spec fn scrubbed(&self, s: Seq<char>) -> Seq<char>;

    /// The number of positions.
    spec fn size(&self) -> int;

    /// The number of positions.
    fn length(&self) -> (n: usize)
        ensures
            n == self.size(),
            n > 0,
    ;

    /// The position of `c` in the alphabet, if it belongs to it.
    fn find_position(&self, c: char) -> (r: Option<usize>)
        ensures
            (r is Some) == self.char_ok(c),
            r matches Some(p) ==> p == self.pos_spec(c) && p < self.size(),
    ;

    /// The member character at `index`, if any; for an alphabet with both
    /// cases, `is_uppercase` picks the case of a letter.
    fn get_letter(&self, index: usize, is_uppercase: bool) -> (r: Option<char>)
        ensures
            (r is Some) == (index < self.size()),
            r matches Some(c) ==> self.char_ok(c) && self.pos_spec(c) == index && (is_letter(c)
                ==> is_upper_letter(c) == is_uppercase),
    ;

    /// Whether every character of `text` belongs to the alphabet.
    fn is_valid(&self, text: &str) -> (r: bool)
        ensures
            r == forall|i: int| 0 <= i < text@.len() ==> self.char_ok(#[trigger] text@[i]),
    ;

    /// `text` with every character outside the alphabet removed.
    fn scrub(&self, text: &str) -> (r: String)
        ensures
            r@ == self.scrubbed(text@),
    ;
}

/// The alphabet of the 26 Latin letters; both cases share positions 0 to 25.
pub struct Standard;

/// The alphabet of letters and decimal digits; digits take positions 26 to 35.
pub struct Alphanumeric;

impl Alphabet for Standard {
    open spec fn char_ok(&self, c: char) -> bool {
        is_letter(c)
    }

    open spec fn pos_spec(&self, c: char) -> int {
        if is_lower_letter(c) {
            c as u32 - 97
        } else {
            c as u32 - 65
        }
    }

    open spec fn scrubbed(&self, s: Seq<char>) -> Seq<char> {
        letters_of(s)
    }

    open spec fn size(&self) -> int {
        26
    }

    fn length(&self) -> (n: usize) {
        26
    }

    fn find_position(&self, c: char) -> (r: Option<usize>) {
        let cu = c as u32;
        if cu >= 97 && cu <= 122 {
            Some((cu - 97) as usize)
        } else if cu >= 65 && cu <= 90 {
            Some((cu - 65) as usize)
        } else {
            None
        }
    }

    fn get_letter(&self, index: usize, is_uppercase: bool) -> (r: Option<char>) {
        if index >= 26 {
            return None;
        }
        let base: u32 = if is_uppercase {
            65
        } else {
            97
        };
        let c = ((base + index as u32) as u8) as char;
        proof {
            assert(c as u32 == base + index);
            assert(self.char_ok(c) && self.pos_spec(c) == index);
        }
        Some(c)
    }

    fn is_valid(&self, text: &str) -> (r: bool) {
        let chars = crate::text::to_chars(text);
        let mut i: usize = 0;
        while i < chars.len()
            invariant
                i <= chars.len(),
                chars@ == text@,
                forall|j: int| 0 <= j < i ==> is_letter(#[trigger] text@[j]),
            decreases chars@.len() - i,
        {
            let cu = chars[i] as u32;
            if !((cu >= 97 && cu <= 122) || (cu >= 65 && cu <= 90)) {
                return false;
            }
            i = i + 1;
        }
        true
    }

    fn scrub(&self, text: &str) -> (r: String) {
        let chars = crate::text::to_chars(text);
        let kept = scrub_letters(&chars);
        crate::text::to_text(&kept)
    }
}

impl Alphabet for Alphanumeric {
    open spec fn char_ok(&self, c: char) -> bool {
        is_letter_or_digit(c)
    }

    open spec fn pos_spec(&self, c: char) -> int {
        if is_lower_letter(c) {
            c as u32 - 97
        } else if is_upper_letter(c) {
            c as u32 - 65
        } else {
            c as u32 - 48 + 26
        }
    }

    open spec fn scrubbed(&self, s: Seq<char>) -> Seq<char> {
        alphanumerics_of(s)
    }

    open spec fn size(&self) -> int {
        36
    }

    fn length(&self) -> (n: usize) {
        36
    }

    fn find_position(&self, c: char) -> (r: Option<usize>) {
        let cu = c as u32;
        if cu >= 97 && cu <= 122 {
            Some((cu - 97) as usize)
        } else if cu >= 65 && cu <= 90 {
            Some((cu - 65) as usize)
        } else if cu >= 48 && cu <= 57 {
            Some((cu - 48 + 26) as usize)
        } else {
            None
        }
    }

    fn get_letter(&self, index: usize, is_uppercase: bool) -> (r: Option<char>) {
        if index >= 36 {
            return None;
        }
        if index >= 26 {
            let c = ((48 + (index - 26) as u32) as u8) as char;
            proof {
                assert(c as u32 == 48 + (index - 26));
                assert(self.char_ok(c) && self.pos_spec(c) == index);
            }
            return Some(c);
        }
        let base: u32 = if is_uppercase {
            65
        } else {
            97
        };
        let c = ((base + index as u32) as u8) as char;
        proof {
            assert(c as u32 == base + index);
            assert(self.char_ok(c) && self.pos_spec(c) == index);
        }
        Some(c)
    }

    fn is_valid(&self, text: &str) -> (r: bool) {
        let chars = crate::text::to_chars(text);
        let mut i: usize = 0;
        while i < chars.len()
            invariant
                i <= chars.len(),
                chars@ == text@,
                forall|j: int| 0 <= j < i ==> is_letter_or_digit(#[trigger] text@[j]),
            decreases chars@.len() - i,
        {
            let cu = chars[i] as u32;
            if !((cu >= 97 && cu <= 122) || (cu >= 65 && cu <= 90) || (cu >= 48 && cu <= 57)) {
                return false;
            }
            i = i + 1;
        }
        true
    }

    fn scrub(&self, text: &str) -> (r: String) {
        let chars = crate::text::to_chars(text);
        let kept = scrub_alphanumerics(&chars);
        crate::text::to_text(&kept)
    }
}

} // verus!
