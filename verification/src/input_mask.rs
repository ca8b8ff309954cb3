//! Input masks: fixed patterns such as `999-AAA` and grouped numbers such as `-1,234.5`,
//! checked, applied to and removed from the text of an input.
//!
//! Pattern characters: `9` a digit, `A` a letter, `#` a letter or digit, `*` any character;
//! every other character stands for itself as a separator.

use vstd::prelude::*;

use crate::text::{chars_of, push_char, string_of_chars};

verus! {

/// One position of a mask pattern.
#[derive(Clone, Copy, Debug, PartialEq, Eq, Structural)]
pub enum MoonInputMaskToken {
    Digit,
    Letter,
    LetterOrDigit,
    Any,
    Separator(char),
}

/// Whether `c` is an ASCII decimal digit.
pub open spec fn ascii_digit(c: char) -> bool {
    '0' <= c <= '9'
}

/// Whether `c` is an ASCII letter.
pub open spec fn ascii_letter(c: char) -> bool {
    ('a' <= c <= 'z') || ('A' <= c <= 'Z')
}

/// Whether `c` is `+` or `-`.
pub open spec fn sign_char(c: char) -> bool {
    c == '+' || c == '-'
}

/// Whether `token` accepts `c` at its position.
pub open spec fn token_accepts(token: MoonInputMaskToken, c: char) -> bool {
    match token {
        MoonInputMaskToken::Digit => ascii_digit(c),
        MoonInputMaskToken::Letter => ascii_letter(c),
        MoonInputMaskToken::LetterOrDigit => ascii_digit(c) || ascii_letter(c),
        MoonInputMaskToken::Any => true,
        MoonInputMaskToken::Separator(s) => s == c,
    }
}

/// The character a token shows where nothing was typed yet.
pub open spec fn token_placeholder(token: MoonInputMaskToken) -> char {
    match token {
        MoonInputMaskToken::Separator(s) => s,
        _ => '_',
    }
}

/// The character shown at a token's position for the typed character `c`.
pub open spec fn token_mask(token: MoonInputMaskToken, c: char) -> char {
    match token {
        MoonInputMaskToken::Separator(s) => s,
        _ => c,
    }
}

/// The token a pattern character stands for.
pub open spec fn token_of(c: char) -> MoonInputMaskToken {
    if c == '9' {
        MoonInputMaskToken::Digit
    } else if c == 'A' {
        MoonInputMaskToken::Letter
    } else if c == '#' {
        MoonInputMaskToken::LetterOrDigit
    } else if c == '*' {
        MoonInputMaskToken::Any
    } else {
        MoonInputMaskToken::Separator(c)
    }
}

/// The tokens of a pattern, one per character.
pub open spec fn tokens_of(pattern: Seq<char>) -> Seq<MoonInputMaskToken> {
    pattern.map_values(|c: char| token_of(c))
}

fn char_is_digit(c: char) -> (r: bool)
    ensures
        r == ascii_digit(c),
{
    '0' <= c && c <= '9'
}

fn char_is_letter(c: char) -> (r: bool)
    ensures
        r == ascii_letter(c),
{
    ('a' <= c && c <= 'z') || ('A' <= c && c <= 'Z')
}

impl MoonInputMaskToken {
    /// Whether this token accepts `ch` at its position.
    pub fn is_match(&self, ch: char) -> (r: bool)
        ensures
            r == token_accepts(*self, ch),
    {
        match self {
            MoonInputMaskToken::Digit => char_is_digit(ch),
            MoonInputMaskToken::Letter => char_is_letter(ch),
            MoonInputMaskToken::LetterOrDigit => char_is_digit(ch) || char_is_letter(ch),
            MoonInputMaskToken::Any => true,
            MoonInputMaskToken::Separator(expected) => *expected == ch,
        }
    }

    /// Whether this token is a literal separator.
    pub fn is_separator(&self) -> (r: bool)
        ensures
            r == (*self is Separator),
    {
        match self {
            MoonInputMaskToken::Separator(_) => true,
            _ => false,
        }
    }

    /// The character shown at this position where nothing was typed: the separator itself,
    /// or `_`.
    pub fn placeholder(&self) -> (r: char)
        ensures
            r == token_placeholder(*self),
    {
        match self {
            MoonInputMaskToken::Separator(ch) => *ch,
            _ => '_',
        }
    }

    /// The character shown at this position for the typed `ch`.
    pub fn mask_char(&self, ch: char) -> (r: char)
        ensures
            r == token_mask(*self, ch),
    {
        match self {
            MoonInputMaskToken::Separator(s) => *s,
            _ => ch,
        }
    }

    /// The typed character behind `ch` at this position; `None` at a separator.
    pub fn unmask_char(&self, ch: char) -> (r: Option<char>)
        ensures
            r == (if *self is Separator { None } else { Some(ch) }),
    {
        match self {
            MoonInputMaskToken::Separator(_) => None,
            _ => Some(ch),
        }
    }
}

/// Whether `ch` is `+` or `-`.
pub fn is_sign(ch: &char) -> (r: bool)
    ensures
        r == sign_char(*ch),
{
    *ch == '+' || *ch == '-'
}


/// The mask an input applies to its text.
#[derive(Clone, Debug, PartialEq, Eq)]
pub enum MoonInputMaskPattern {
    NoMask,
    /// A fixed pattern, kept as written and as tokens.
    Pattern { pattern: String, tokens: Vec<MoonInputMaskToken> },
    /// A number whose integer digits are grouped by threes with `separator`, with at most
    /// `fraction` fraction digits.
    Number { separator: Option<char>, fraction: Option<usize> },
}

impl Default for MoonInputMaskPattern {
    fn default() -> (r: MoonInputMaskPattern)
        ensures
            r is NoMask,
    {
        MoonInputMaskPattern::NoMask
    }
}

/// How far a pattern's tokens carry a text when each token takes the next character if it
/// accepts it and otherwise lets it wait for a later token: the index reached after the
/// first `k` tokens.
pub open spec fn consumed(tokens: Seq<MoonInputMaskToken>, chars: Seq<char>, k: int) -> int
    decreases k,
{
    if k <= 0 {
        0
    } else {
        let t = consumed(tokens, chars, k - 1);
        if t < chars.len() && token_accepts(tokens[k - 1], chars[t]) {
            t + 1
        } else {
            t
        }
    }
}

/// The characters a pattern keeps from a masked text: each character under a non-separator
/// token, among the first `k` positions.
pub open spec fn unmasked_pattern(tokens: Seq<MoonInputMaskToken>, chars: Seq<char>, k: int) -> Seq<char>
    decreases k,
{
    if k <= 0 {
        Seq::empty()
    } else {
        let prev = unmasked_pattern(tokens, chars, k - 1);
        if k - 1 < chars.len() && !(tokens[k - 1] is Separator) {
            prev.push(chars[k - 1])
        } else {
            prev
        }
    }
}

/// Whether the typed `c` is acceptable at `pos` of a pattern: the token there accepts it, or
/// that token is a separator and the next one accepts it.
pub open spec fn valid_at(tokens: Seq<MoonInputMaskToken>, c: char, pos: int) -> bool {
    0 <= pos < tokens.len() && (token_accepts(tokens[pos], c) || (tokens[pos] is Separator
        && pos + 1 < tokens.len() && token_accepts(tokens[pos + 1], c)))
}

/// Masking a text with a pattern, after the first `k` tokens: the output so far, the index
/// of the next text character, and whether masking stopped.
///
/// A separator token shows itself and takes the next character only if it is that
/// separator; another token takes the next character if it accepts it and stops masking
/// otherwise. Masking also stops when the text runs out.
pub open spec fn mask_state(tokens: Seq<MoonInputMaskToken>, chars: Seq<char>, k: int) -> (Seq<char>, int, bool)
    decreases k,
{
    if k <= 0 {
        (Seq::empty(), 0, false)
    } else {
        let (out, t, stopped) = mask_state(tokens, chars, k - 1);
        if stopped || t >= chars.len() {
            (out, t, true)
        } else {
            let token = tokens[k - 1];
            let c = chars[t];
            if !(token is Separator) && !valid_at(tokens, c, k - 1) {
                (out, t, true)
            } else {
                let m = token_mask(token, c);
                (out.push(m), if c == m { t + 1 } else { t }, false)
            }
        }
    }
}

impl MoonInputMaskPattern {
    /// The pattern written as `pattern`, one token per character.
    pub fn new(pattern: &str) -> (r: MoonInputMaskPattern)
        ensures
            r matches MoonInputMaskPattern::Pattern { pattern: p, tokens }
                && p@ == pattern@ && tokens@ == tokens_of(pattern@),
    {
        let chars = chars_of(pattern);
        let mut tokens: Vec<MoonInputMaskToken> = Vec::new();
        let mut i: usize = 0;
        while i < chars.len()
            invariant
                i <= chars.len(),
                chars@ == pattern@,
                tokens@ == tokens_of(pattern@.take(i as int)),
            decreases chars.len() - i,
        {
            let c = chars[i];
            let t = if c == '9' {
                MoonInputMaskToken::Digit
            } else if c == 'A' {
                MoonInputMaskToken::Letter
            } else if c == '#' {
                MoonInputMaskToken::LetterOrDigit
            } else if c == '*' {
                MoonInputMaskToken::Any
            } else {
                MoonInputMaskToken::Separator(c)
            };
            tokens.push(t);
            assert(pattern@.take(i + 1) == pattern@.take(i as int).push(c));
            assert(tokens_of(pattern@.take(i + 1)) =~= tokens_of(pattern@.take(i as int)).push(token_of(c)));
            i = i + 1;
        }
        assert(pattern@.take(chars.len() as int) == pattern@);
        MoonInputMaskPattern::Pattern { pattern: pattern.to_owned(), tokens }
    }

    /// A grouped number without a fraction limit.
    pub fn number(separator: Option<char>) -> (r: MoonInputMaskPattern)
        ensures
            r == (MoonInputMaskPattern::Number { separator, fraction: None }),
    {
        MoonInputMaskPattern::Number { separator, fraction: None }
    }

    /// A grouped number with at most `fraction` fraction digits.
    pub fn number_with_fraction(separator: Option<char>, fraction: Option<usize>) -> (r: MoonInputMaskPattern)
        ensures
            r == (MoonInputMaskPattern::Number { separator, fraction }),
    {
        MoonInputMaskPattern::Number { separator, fraction }
    }

    /// The text a pattern shows before anything is typed; `None` for numbers and no mask.
    pub fn placeholder(&self) -> (r: Option<String>)
        ensures
            match self {
                MoonInputMaskPattern::Pattern { tokens, .. } => r matches Some(s)
                    && s@ == tokens@.map_values(|t: MoonInputMaskToken| token_placeholder(t)),
                _ => r is None,
            },
    {
        match self {
            MoonInputMaskPattern::Pattern { tokens, .. } => {
                let mut s = String::new();
                let mut i: usize = 0;
                while i < tokens.len()
                    invariant
                        i <= tokens.len(),
                        s@ == tokens@.take(i as int).map_values(|t: MoonInputMaskToken| token_placeholder(t)),
                    decreases tokens.len() - i,
                {
                    let c = tokens[i].placeholder();
                    push_char(&mut s, c);
                    assert(tokens@.take(i + 1) == tokens@.take(i as int).push(tokens@[i as int]));
                    assert(tokens@.take(i + 1).map_values(|t: MoonInputMaskToken| token_placeholder(t))
                        =~= tokens@.take(i as int).map_values(|t: MoonInputMaskToken| token_placeholder(t)).push(c));
                    i = i + 1;
                }
                assert(tokens@.take(tokens.len() as int) == tokens@);
                Some(s)
            },
            _ => None,
        }
    }

    /// Whether this mask changes nothing: no mask, or a pattern without tokens.
    pub fn is_none(&self) -> (r: bool)
        ensures
            r == mask_is_none(*self),
    {
        match self {
            MoonInputMaskPattern::NoMask => true,
            MoonInputMaskPattern::Pattern { tokens, .. } => tokens.len() == 0,
            MoonInputMaskPattern::Number { .. } => false,
        }
    }

    /// Whether typing `ch` at `pos` is acceptable.
    pub fn is_valid_at(&self, ch: char, pos: usize) -> (r: bool)
        ensures
            r == (match self {
                MoonInputMaskPattern::Pattern { tokens, .. } => tokens@.len() == 0 || valid_at(tokens@, ch, pos as int),
                _ => true,
            }),
    {
        if self.is_none() {
            return true;
        }
        match self {
            MoonInputMaskPattern::Pattern { tokens, .. } => {
                if pos < tokens.len() {
                    if tokens[pos].is_match(ch) {
                        return true;
                    }
                    if tokens[pos].is_separator() && pos + 1 < tokens.len() {
                        return tokens[pos + 1].is_match(ch);
                    }
                }
                false
            },
            _ => true,
        }
    }
}


/// The index of the first `.` at or after `from`, or the length where there is none.
pub open spec fn dot_from(s: Seq<char>, from: int) -> int
    decreases s.len() - from,
{
    if from < 0 || from >= s.len() {
        s.len() as int
    } else if s[from] == '.' {
        from
    } else {
        dot_from(s, from + 1)
    }
}

/// The integer part of a number text: everything before the first `.`.
pub open spec fn int_part(s: Seq<char>) -> Seq<char> {
    s.take(dot_from(s, 0))
}

/// The fraction part of a number text: what lies between its first `.` and the next one,
/// if there is a first.
pub open spec fn frac_part(s: Seq<char>) -> Option<Seq<char>> {
    let d = dot_from(s, 0);
    if d < s.len() {
        Some(s.subrange(d + 1, dot_from(s, d + 1)))
    } else {
        None
    }
}

/// Whether a number text has more than one `.`.
pub open spec fn has_second_dot(s: Seq<char>) -> bool {
    let d = dot_from(s, 0);
    d < s.len() && dot_from(s, d + 1) < s.len()
}

/// Whether `c` may stand in a number besides a leading sign: a digit or the group separator.
pub open spec fn number_char(c: char, separator: Option<char>) -> bool {
    ascii_digit(c) || separator == Some(c)
}

/// Whether a masked number text is well formed: empty, or one integer part that is not
/// empty, may begin with a sign and otherwise holds digits and separators, followed at most
/// by one fraction of digits and separators.
pub open spec fn valid_number_text(s: Seq<char>, separator: Option<char>) -> bool {
    s.len() == 0 || {
        let ip = int_part(s);
        &&& !has_second_dot(s)
        &&& ip.len() > 0
        &&& forall|k: int| 0 <= k < ip.len() ==> if sign_char(#[trigger] ip[k]) {
            k == 0
        } else {
            number_char(ip[k], separator)
        }
        &&& match frac_part(s) {
            Some(f) => forall|k: int| 0 <= k < f.len() ==> number_char(#[trigger] f[k], separator),
            None => true,
        }
    }
}

/// The index of the first `.` at or after `from`.
fn find_dot(s: &Vec<char>, from: usize) -> (r: usize)
    requires
        from <= s.len(),
    ensures
        r as int == dot_from(s@, from as int),
        from <= r <= s.len(),
{
    let mut i = from;
    while i < s.len() && s[i] != '.'
        invariant
            from <= i <= s.len(),
            dot_from(s@, i as int) == dot_from(s@, from as int),
        decreases s.len() - i,
    {
        i = i + 1;
    }
    i
}

/// Whether `masked_text` is a well-formed number for the group separator `separator`.
pub fn is_valid_number_mask(masked_text: &str, separator: Option<char>) -> (r: bool)
    ensures
        r == valid_number_text(masked_text@, separator),
{
    let s = chars_of(masked_text);
    if s.len() == 0 {
        return true;
    }
    let d = find_dot(&s, 0);
    let ghost ip = s@.take(d as int);
    if d < s.len() {
        let d2 = find_dot(&s, d + 1);
        if d2 < s.len() {
            return false;
        }
    }
    if d == 0 {
        return false;
    }
    let mut i: usize = 0;
    #[verifier::loop_isolation(false)]
    while i < d
        invariant
            i <= d <= s.len(),
            ip == s@.take(d as int),
            forall|k: int| 0 <= k < i ==> if sign_char(#[trigger] ip[k]) {
                k == 0
            } else {
                number_char(ip[k], separator)
            },
        decreases d - i,
    {
        let ch = s[i];
        assert(ip[i as int] == ch);
        if is_sign(&ch) {
            if i != 0 {
                return false;
            }
        } else if !(char_is_digit(ch) || separator == Some(ch)) {
            return false;
        }
        i = i + 1;
    }
    if d < s.len() {
        let end = find_dot(&s, d + 1);
        let ghost f = s@.subrange(d + 1, end as int);
        assert(frac_part(s@) == Some(f));
        let mut j: usize = d + 1;
        #[verifier::loop_isolation(false)]
        while j < end
            invariant
                d + 1 <= j <= end <= s.len(),
                f == s@.subrange(d + 1, end as int),
                forall|k: int| 0 <= k < j - (d + 1) ==> number_char(#[trigger] f[k], separator),
            decreases end - j,
        {
            let ch = s[j];
            assert(f[j - (d + 1)] == ch);
            if !(char_is_digit(ch) || separator == Some(ch)) {
                assert(!valid_number_text(s@, separator)) by {
                    let k = j - (d + 1);
                    assert(!number_char(f[k], separator));
                    assert(0 <= k < f.len());
                    assert(s@.len() != 0);
                    assert(frac_part(s@) is Some);
                    assert(frac_part(s@)->0 == f);
                    assert(!(forall|k2: int| 0 <= k2 < f.len() ==> number_char(#[trigger] f[k2], separator)));
                }
                return false;
            }
            j = j + 1;
        }
        assert(frac_part(s@) == Some(f));
        assert(forall|k: int| 0 <= k < f.len() ==> number_char(#[trigger] f[k], separator));
    }
    true
}


/// The characters of `s` other than `c`.
pub open spec fn without_char(s: Seq<char>, c: char) -> Seq<char> {
    s.filter(|x: char| x != c)
}

/// `s` without its trailing zeros.
pub open spec fn trim_zeros(s: Seq<char>) -> Seq<char>
    decreases s.len(),
{
    if s.len() > 0 && s.last() == '0' {
        trim_zeros(s.drop_last())
    } else {
        s
    }
}

/// What a masked text holds once the mask is taken off.
pub open spec fn unmasked(m: MoonInputMaskPattern, s: Seq<char>) -> Seq<char> {
    match m {
        MoonInputMaskPattern::Pattern { tokens, .. } => unmasked_pattern(tokens@, s, tokens@.len() as int),
        MoonInputMaskPattern::Number { separator: Some(sep), .. } => {
            let kept = without_char(s, sep);
            if kept.contains('.') {
                trim_zeros(kept)
            } else {
                kept
            }
        },
        _ => s,
    }
}

/// Whether a masked text conforms to a mask.
pub open spec fn conforms(m: MoonInputMaskPattern, s: Seq<char>) -> bool {
    if mask_is_none(m) {
        true
    } else {
        match m {
            MoonInputMaskPattern::Pattern { tokens, .. } => consumed(tokens@, s, tokens@.len() as int) == s.len(),
            MoonInputMaskPattern::Number { separator, .. } => valid_number_text(s, separator),
            _ => true,
        }
    }
}

impl MoonInputMaskPattern {
    /// Whether `masked_text` conforms to this mask.
    ///
    /// For a pattern, each token in turn takes the next character if it accepts it; the text
    /// conforms when every character was taken.
    pub fn is_valid(&self, masked_text: &str) -> (r: bool)
        ensures
            r == conforms(*self, masked_text@),
    {
        if self.is_none() {
            return true;
        }
        match self {
            MoonInputMaskPattern::Pattern { tokens, .. } => {
                let chars = chars_of(masked_text);
                let mut text_index: usize = 0;
                let mut k: usize = 0;
                while k < tokens.len()
                    invariant
                        k <= tokens.len(),
                        text_index <= chars.len(),
                        text_index as int == consumed(tokens@, chars@, k as int),
                    decreases tokens.len() - k,
                {
                    if text_index < chars.len() && tokens[k].is_match(chars[text_index]) {
                        text_index = text_index + 1;
                    }
                    k = k + 1;
                }
                text_index == chars.len()
            },
            MoonInputMaskPattern::Number { separator, .. } => is_valid_number_mask(masked_text, *separator),
            _ => true,
        }
    }

    /// The text behind `masked_text`: a pattern keeps the characters under its non-separator
    /// tokens; a number with a separator drops the separators and, when it has a fraction,
    /// its trailing zeros.
    pub fn unmask(&self, masked_text: &str) -> (r: String)
        ensures
            r@ == unmasked(*self, masked_text@),
    {
        let chars = chars_of(masked_text);
        match self {
            MoonInputMaskPattern::Pattern { tokens, .. } => {
                let mut result = String::new();
                let mut k: usize = 0;
                while k < tokens.len()
                    invariant
                        k <= tokens.len(),
                        chars@ == masked_text@,
                        result@ == unmasked_pattern(tokens@, chars@, k as int),
                    decreases tokens.len() - k,
                {
                    if k < chars.len() {
                        match tokens[k].unmask_char(chars[k]) {
                            Some(c) => push_char(&mut result, c),
                            None => {},
                        }
                    }
                    k = k + 1;
                }
                result
            },
            MoonInputMaskPattern::Number { separator: Some(sep), .. } => {
                let sep = *sep;
                let mut kept: Vec<char> = Vec::new();
                let mut has_dot = false;
                let mut i: usize = 0;
                while i < chars.len()
                    invariant
                        i <= chars.len(),
                        kept@ == without_char(chars@.take(i as int), sep),
                        has_dot == kept@.contains('.'),
                    decreases chars.len() - i,
                {
                    let c = chars[i];
                    proof {
                        assert(chars@.take(i + 1).drop_last() == chars@.take(i as int));
                        reveal_with_fuel(Seq::filter, 1);
                    }
                    if c != sep {
                        proof {
                            assert(kept@.push(c).contains('.') == (kept@.contains('.') || c == '.')) by {
                                if c == '.' {
                                    assert(kept@.push(c)[kept@.len() as int] == '.');
                                }
                                if kept@.contains('.') {
                                    let w = kept@.index_of('.');
                                    assert(kept@.push(c)[w] == '.');
                                }
                            }
                        }
                        kept.push(c);
                        if c == '.' {
                            has_dot = true;
                        }
                    }
                    i = i + 1;
                }
                assert(chars@.take(chars.len() as int) == chars@);
                if has_dot {
                    let ghost full = kept@;
                    while kept.len() > 0 && kept[kept.len() - 1] == '0'
                        invariant
                            trim_zeros(kept@) == trim_zeros(full),
                        decreases kept.len(),
                    {
                        kept.pop();
                    }
                }
                string_of_chars(&kept)
            },
            _ => string_of_chars(&chars),
        }
    }
}


/// The index of the first sign character of `s` at or after `from`, or the length.
pub open spec fn sign_from(s: Seq<char>, from: int) -> int
    decreases s.len() - from,
{
    if from < 0 || from >= s.len() {
        s.len() as int
    } else if sign_char(s[from]) {
        from
    } else {
        sign_from(s, from + 1)
    }
}

/// Reversed integer digits with `separator` inserted before every third one after the first.
pub open spec fn grouped_reversed(digits: Seq<char>, separator: char) -> Seq<char>
    decreases digits.len(),
{
    if digits.len() == 0 {
        Seq::empty()
    } else {
        let i = digits.len() - 1;
        let prev = grouped_reversed(digits.drop_last(), separator);
        (if i > 0 && i % 3 == 0 { prev.push(separator) } else { prev }).push(digits.last())
    }
}

/// A number text grouped with `separator`: separators already present are dropped, the
/// integer part is grouped by threes from the right with its last sign moved to the front,
/// and the fraction, limited to `fraction` digits, follows a `.` unless the limit is zero.
pub open spec fn masked_number(text: Seq<char>, separator: char, fraction: Option<usize>) -> Seq<char> {
    let t = without_char(text, separator);
    let rev = int_part(t).reverse();
    let p = sign_from(rev, 0);
    let digits = if p < rev.len() { rev.remove(p) } else { rev };
    let sign: Seq<char> = if p < rev.len() { seq![rev[p]] } else { Seq::empty() };
    let body = grouped_reversed(digits, separator).reverse();
    let tail: Seq<char> = match frac_part(t) {
        Some(f) => if fraction == Some(0usize) {
            Seq::empty()
        } else {
            seq!['.'] + match fraction {
                Some(n) => if n < f.len() { f.take(n as int) } else { f },
                None => f,
            }
        },
        None => Seq::empty(),
    };
    sign + body + tail
}

/// A text as a mask shows it.
pub open spec fn masked(m: MoonInputMaskPattern, s: Seq<char>) -> Seq<char> {
    if mask_is_none(m) {
        s
    } else {
        match m {
            MoonInputMaskPattern::Pattern { tokens, .. } => mask_state(tokens@, s, tokens@.len() as int).0,
            MoonInputMaskPattern::Number { separator: Some(sep), fraction } => masked_number(s, sep, fraction),
            _ => s,
        }
    }
}

/// The reverse of `v`.
fn reversed(v: &Vec<char>) -> (r: Vec<char>)
    ensures
        r@ == v@.reverse(),
{
    let mut r: Vec<char> = Vec::new();
    let mut i: usize = v.len();
    while i > 0
        invariant
            i <= v.len(),
            r@.len() == v.len() - i,
            forall|k: int| 0 <= k < r@.len() ==> r@[k] == v@[v.len() - 1 - k],
        decreases i,
    {
        i = i - 1;
        r.push(v[i]);
    }
    assert(r@ =~= v@.reverse());
    r
}

impl MoonInputMaskPattern {
    /// `text` as this mask shows it.
    pub fn mask(&self, text: &str) -> (r: String)
        ensures
            r@ == masked(*self, text@),
    {
        if self.is_none() {
            return string_of_chars(&chars_of(text));
        }
        match self {
            MoonInputMaskPattern::Pattern { tokens, .. } => self.mask_pattern(text, tokens),
            MoonInputMaskPattern::Number { separator, fraction } => self.mask_number(text, *separator, *fraction),
            _ => string_of_chars(&chars_of(text)),
        }
    }

    fn mask_pattern(&self, text: &str, tokens: &Vec<MoonInputMaskToken>) -> (r: String)
        requires
            self matches MoonInputMaskPattern::Pattern { tokens: t, .. } && t@ == tokens@,
            tokens@.len() > 0,
        ensures
            r@ == mask_state(tokens@, text@, tokens@.len() as int).0,
    {
        let chars = chars_of(text);
        let mut result = String::new();
        let mut text_index: usize = 0;
        let mut pos: usize = 0;
        while pos < tokens.len()
            invariant_except_break
                pos <= tokens.len(),
                (result@, text_index as int, false) == mask_state(tokens@, chars@, pos as int),
            invariant
                self matches MoonInputMaskPattern::Pattern { tokens: t, .. } && t@ == tokens@,
                tokens@.len() > 0,
                chars@ == text@,
                text_index <= chars.len(),
            ensures
                result@ == mask_state(tokens@, chars@, tokens@.len() as int).0,
            decreases tokens.len() - pos,
        {
            if text_index >= chars.len() {
                proof { lemma_mask_state_stays(tokens@, chars@, pos as int); }
                break;
            }
            let ch = chars[text_index];
            if !tokens[pos].is_separator() && !self.is_valid_at(ch, pos) {
                proof { lemma_mask_state_stays(tokens@, chars@, pos as int + 1); }
                break;
            }
            let masked = tokens[pos].mask_char(ch);
            push_char(&mut result, masked);
            if ch == masked {
                text_index = text_index + 1;
            }
            pos = pos + 1;
        }
        result
    }

    #[verifier::spinoff_prover]
    #[verifier::rlimit(40)]
    fn mask_number(&self, text: &str, separator: Option<char>, fraction: Option<usize>) -> (r: String)
        ensures
            r@ == (match separator {
                Some(sep) => masked_number(text@, sep, fraction),
                None => text@,
            }),
    {
        let sep = match separator {
            Some(c) => c,
            None => {
                return string_of_chars(&chars_of(text));
            },
        };
        let chars = chars_of(text);
        let mut t: Vec<char> = Vec::new();
        let mut i: usize = 0;
        while i < chars.len()
            invariant
                i <= chars.len(),
                t@ == without_char(chars@.take(i as int), sep),
            decreases chars.len() - i,
        {
            let c = chars[i];
            proof {
                assert(chars@.take(i + 1).drop_last() == chars@.take(i as int));
                reveal_with_fuel(Seq::filter, 1);
            }
            if c != sep {
                t.push(c);
            }
            i = i + 1;
        }
        assert(chars@.take(chars.len() as int) == chars@);
        let ghost tv = t@;
        let d = find_dot(&t, 0);
        let mut int_chars: Vec<char> = Vec::new();
        let mut k: usize = 0;
        while k < d
            invariant
                k <= d <= t.len(),
                int_chars@ == t@.take(k as int),
            decreases d - k,
        {
            int_chars.push(t[k]);
            assert(t@.take(k + 1) == t@.take(k as int).push(t@[k as int]));
            k = k + 1;
        }
        let mut rev = reversed(&int_chars);
        let ghost rv = rev@;
        let mut p: usize = 0;
        while p < rev.len() && !is_sign(&rev[p])
            invariant
                p <= rev.len(),
                rev@ == rv,
                sign_from(rv, p as int) == sign_from(rv, 0),
            decreases rev.len() - p,
        {
            p = p + 1;
        }
        let sign: Option<char> = if p < rev.len() { Some(rev.remove(p)) } else { None };
        let mut grouped: Vec<char> = Vec::new();
        let mut g: usize = 0;
        while g < rev.len()
            invariant
                g <= rev.len(),
                grouped@ == grouped_reversed(rev@.take(g as int), sep),
            decreases rev.len() - g,
        {
            assert(rev@.take(g + 1).drop_last() == rev@.take(g as int));
            if g > 0 && g % 3 == 0 {
                grouped.push(sep);
            }
            grouped.push(rev[g]);
            g = g + 1;
        }
        assert(rev@.take(rev.len() as int) == rev@);
        let body = reversed(&grouped);
        let mut out: Vec<char> = Vec::new();
        match sign {
            Some(c) => out.push(c),
            None => {},
        }
        let mut b: usize = 0;
        let ghost o0 = out@;
        while b < body.len()
            invariant
                b <= body.len(),
                out@ == o0 + body@.take(b as int),
            decreases body.len() - b,
        {
            out.push(body[b]);
            assert(body@.take(b + 1) == body@.take(b as int).push(body@[b as int]));
            b = b + 1;
        }
        assert(body@.take(body.len() as int) == body@);
        if d < t.len() && !(fraction == Some(0usize)) {
            let end = find_dot(&t, d + 1);
            let limit: usize = match fraction {
                Some(n) => if n < end - (d + 1) { n } else { end - (d + 1) },
                None => end - (d + 1),
            };
            let ghost o1 = out@;
            out.push('.');
            let mut j: usize = 0;
            while j < limit
                invariant
                    j <= limit <= end - (d + 1),
                    end <= t.len(),
                    out@ == o1.push('.') + t@.subrange(d + 1, d + 1 + j),
                decreases limit - j,
            {
                out.push(t[d + 1 + j]);
                assert(t@.subrange(d + 1, d + 1 + j + 1) == t@.subrange(d + 1, d + 1 + j).push(t@[d + 1 + j]));
                j = j + 1;
            }
            proof {
                let f = t@.subrange(d + 1, end as int);
                assert(t@.subrange(d + 1, d + 1 + limit) == (match fraction {
                    Some(n) => if n < f.len() { f.take(n as int) } else { f },
                    None => f,
                }));
                assert(o1.push('.') + t@.subrange(d + 1, d + 1 + limit) == o1 + (seq!['.'] + t@.subrange(d + 1, d + 1 + limit)));
            }
        }
        string_of_chars(&out)
    }
}

/// Once masking stops, further tokens change nothing.
proof fn lemma_mask_state_stays(tokens: Seq<MoonInputMaskToken>, chars: Seq<char>, k: int)
    requires
        0 <= k <= tokens.len(),
        mask_state(tokens, chars, k).2 || mask_state(tokens, chars, k).1 >= chars.len(),
    ensures
        mask_state(tokens, chars, tokens.len() as int).0 == mask_state(tokens, chars, k).0,
    decreases tokens.len() - k,
{
    if k < tokens.len() {
        assert(mask_state(tokens, chars, k + 1).0 == mask_state(tokens, chars, k).0);
        lemma_mask_state_stays(tokens, chars, k + 1);
    }
}

/// Whether a mask changes nothing.
pub open spec fn mask_is_none(m: MoonInputMaskPattern) -> bool {
    match m {
        MoonInputMaskPattern::NoMask => true,
        MoonInputMaskPattern::Pattern { tokens, .. } => tokens@.len() == 0,
        MoonInputMaskPattern::Number { .. } => false,
    }
}

/// Whether every character of `s` is an ASCII digit.
pub open spec fn all_digits(s: Seq<char>) -> bool {
    forall|i: int| 0 <= i < s.len() ==> #[trigger] ascii_digit(s[i])
}

/// Removing a character none of `s` is leaves `s` unchanged.
proof fn lemma_without_absent(s: Seq<char>, c: char)
    requires
        forall|i: int| 0 <= i < s.len() ==> #[trigger] s[i] != c,
    ensures
        without_char(s, c) == s,
    decreases s.len(),
{
    reveal_with_fuel(Seq::filter, 1);
    if s.len() > 0 {
        assert forall|i: int| 0 <= i < s.drop_last().len() implies #[trigger] s.drop_last()[i] != c by {
            assert(s.drop_last()[i] == s[i]);
        }
        lemma_without_absent(s.drop_last(), c);
        assert(s.drop_last().push(s.last()) == s);
    }
}

/// Removing a character commutes with reversal.
proof fn lemma_without_reverse(s: Seq<char>, c: char)
    ensures
        without_char(s.reverse(), c) == without_char(s, c).reverse(),
    decreases s.len(),
{
    reveal_with_fuel(Seq::filter, 2);
    if s.len() > 0 {
        let init = s.drop_last();
        let a = s.last();
        lemma_without_reverse(init, c);
        assert(s.reverse() == seq![a] + init.reverse());
        Seq::filter_distributes_over_add(seq![a], init.reverse(), |x: char| x != c);
        Seq::filter_distributes_over_add(init, seq![a], |x: char| x != c);
        assert(init + seq![a] == s);
        assert(seq![a].drop_last() == Seq::<char>::empty());
        let fa = without_char(seq![a], c);
        assert(fa.reverse() == fa);
        let fi = without_char(init, c);
        assert((fi + fa).reverse() == fa.reverse() + fi.reverse());
    }
}

/// Removing the separator from grouped digits gives the digits back.
proof fn lemma_without_grouping(d: Seq<char>, sep: char)
    requires
        forall|i: int| 0 <= i < d.len() ==> #[trigger] d[i] != sep,
    ensures
        without_char(grouped_reversed(d, sep), sep) == d,
    decreases d.len(),
{
    reveal_with_fuel(Seq::filter, 1);
    if d.len() > 0 {
        let init = d.drop_last();
        assert forall|i: int| 0 <= i < init.len() implies #[trigger] init[i] != sep by {
            assert(init[i] == d[i]);
        }
        lemma_without_grouping(init, sep);
        let prev = grouped_reversed(init, sep);
        let i = d.len() - 1;
        let mid = if i > 0 && i % 3 == 0 { prev.push(sep) } else { prev };
        assert(grouped_reversed(d, sep) == mid.push(d.last()));
        assert(mid.push(d.last()).drop_last() == mid);
        assert(mid.push(d.last()).last() == d.last());
        assert(d.last() != sep);
        assert(without_char(mid.push(d.last()), sep) == without_char(mid, sep).push(d.last()));
        if i > 0 && i % 3 == 0 {
            assert(prev.push(sep).drop_last() == prev);
            assert(prev.push(sep).last() == sep);
            assert(without_char(prev.push(sep), sep) == without_char(prev, sep));
        }
        assert(without_char(mid, sep) == init);
        assert(init.push(d.last()) == d);
    }
}

proof fn lemma_no_dot(s: Seq<char>, from: int)
    requires
        0 <= from,
        forall|i: int| 0 <= i < s.len() ==> #[trigger] s[i] != '.',
    ensures
        dot_from(s, from) == s.len(),
    decreases s.len() - from,
{
    if from < s.len() {
        lemma_no_dot(s, from + 1);
    }
}

proof fn lemma_no_sign(s: Seq<char>, from: int)
    requires
        0 <= from,
        forall|i: int| 0 <= i < s.len() ==> !sign_char(#[trigger] s[i]),
    ensures
        sign_from(s, from) == s.len(),
    decreases s.len() - from,
{
    if from < s.len() {
        lemma_no_sign(s, from + 1);
    }
}

/// Masking a run of digits with a number mask whose separator is neither a digit nor `.`,
/// and taking the mask off again, gives the digits back.
pub proof fn lemma_number_mask_round_trip(digits: Seq<char>, sep: char, fraction: Option<usize>)
    requires
        all_digits(digits),
        !ascii_digit(sep),
        sep != '.',
    ensures
        ({
            let m = MoonInputMaskPattern::Number { separator: Some(sep), fraction };
            unmasked(m, masked(m, digits)) == digits
        }),
{
    let m = MoonInputMaskPattern::Number { separator: Some(sep), fraction };
    assert forall|i: int| 0 <= i < digits.len() implies #[trigger] digits[i] != sep by {
        assert(ascii_digit(digits[i]));
    }
    lemma_without_absent(digits, sep);
    assert forall|i: int| 0 <= i < digits.len() implies #[trigger] digits[i] != '.' by {
        assert(ascii_digit(digits[i]));
    }
    lemma_no_dot(digits, 0);
    assert(int_part(digits) == digits);
    assert(frac_part(digits) is None);
    let rev = digits.reverse();
    assert forall|i: int| 0 <= i < rev.len() implies !sign_char(#[trigger] rev[i]) by {
        assert(rev[i] == digits[digits.len() - 1 - i]);
        assert(ascii_digit(digits[digits.len() - 1 - i]));
    }
    lemma_no_sign(rev, 0);
    let g = grouped_reversed(rev, sep);
    assert forall|i: int| 0 <= i < rev.len() implies #[trigger] rev[i] != sep by {
        assert(rev[i] == digits[digits.len() - 1 - i]);
        assert(ascii_digit(digits[digits.len() - 1 - i]));
    }
    lemma_without_grouping(rev, sep);
    lemma_without_reverse(g, sep);
    let body = g.reverse();
    assert(masked(m, digits) == Seq::<char>::empty() + body + Seq::<char>::empty());
    assert(Seq::<char>::empty() + body + Seq::<char>::empty() == body);
    assert(without_char(body, sep) == rev.reverse());
    assert(rev.reverse() == digits);
    assert(!digits.contains('.')) by {
        if digits.contains('.') {
            let k = choose|k: int| 0 <= k < digits.len() && digits[k] == '.';
            assert(digits[k] != '.');
        }
    }
}

/// How many of the first `k` tokens take typed characters (are not separators).
pub open spec fn input_slots(tokens: Seq<MoonInputMaskToken>, k: int) -> int
    decreases k,
{
    if k <= 0 {
        0
    } else {
        input_slots(tokens, k - 1) + if tokens[k - 1] is Separator { 0int } else { 1int }
    }
}

/// Whether `typed` can be typed into a pattern: it fits the pattern's input slots, each
/// character is accepted by the slot it lands in, and none is one of the pattern's
/// separator characters.
pub open spec fn typeable(tokens: Seq<MoonInputMaskToken>, typed: Seq<char>) -> bool {
    &&& typed.len() <= input_slots(tokens, tokens.len() as int)
    &&& forall|k: int| 0 <= k < tokens.len() && !(tokens[k] is Separator) && input_slots(tokens, k) < typed.len()
        ==> #[trigger] token_accepts(tokens[k], typed[input_slots(tokens, k)])
    &&& forall|k: int, j: int| #![trigger tokens[k], typed[j]]
        0 <= k < tokens.len() && 0 <= j < typed.len() && tokens[k] is Separator ==> tokens[k]->0 != typed[j]
}

proof fn lemma_input_slots_bounds(tokens: Seq<MoonInputMaskToken>, k: int)
    ensures
        0 <= input_slots(tokens, k),
        k >= 0 ==> input_slots(tokens, k) <= k,
    decreases k,
{
    if k > 0 {
        lemma_input_slots_bounds(tokens, k - 1);
    }
}

proof fn lemma_input_slots_monotone(tokens: Seq<MoonInputMaskToken>, a: int, b: int)
    requires
        0 <= a <= b,
    ensures
        input_slots(tokens, a) <= input_slots(tokens, b),
    decreases b - a,
{
    if a < b {
        lemma_input_slots_monotone(tokens, a, b - 1);
    }
}

/// Extending a masked text does not change what its first `k` positions unmask to.
proof fn lemma_unmasked_prefix(tokens: Seq<MoonInputMaskToken>, out: Seq<char>, c: char, k: int)
    requires
        k <= out.len(),
    ensures
        unmasked_pattern(tokens, out.push(c), k) == unmasked_pattern(tokens, out, k),
    decreases k,
{
    if k > 0 {
        lemma_unmasked_prefix(tokens, out, c, k - 1);
        assert(out.push(c)[k - 1] == out[k - 1]);
    }
}

/// Positions past the end of a masked text unmask to nothing.
proof fn lemma_unmasked_past_end(tokens: Seq<MoonInputMaskToken>, out: Seq<char>, k: int)
    requires
        out.len() <= k,
    ensures
        unmasked_pattern(tokens, out, k) == unmasked_pattern(tokens, out, out.len() as int),
    decreases k,
{
    if k > out.len() {
        lemma_unmasked_past_end(tokens, out, k - 1);
    }
}

/// Masking typeable text: after `k` tokens, what was shown unmasks to what was consumed;
/// until masking stops every token showed one character and the consumed count is the
/// number of input slots so far; masking only stops once the text is used up.
proof fn lemma_mask_state_typeable(tokens: Seq<MoonInputMaskToken>, typed: Seq<char>, k: int)
    requires
        typeable(tokens, typed),
        0 <= k <= tokens.len(),
    ensures
        ({
            let (out, t, stopped) = mask_state(tokens, typed, k);
            &&& 0 <= t <= typed.len()
            &&& out.len() <= k
            &&& unmasked_pattern(tokens, out, out.len() as int) == typed.take(t)
            &&& !stopped ==> out.len() == k && t == input_slots(tokens, k)
            &&& stopped ==> t == typed.len()
        }),
    decreases k,
{
    if k == 0 {
        assert(typed.take(0) == Seq::<char>::empty());
    } else {
        lemma_mask_state_typeable(tokens, typed, k - 1);
        let (out, t, stopped) = mask_state(tokens, typed, k - 1);
        if !stopped && t < typed.len() {
            let token = tokens[k - 1];
            let c = typed[t];
            lemma_input_slots_bounds(tokens, k - 1);
            if token is Separator {
                assert(token->0 != c);
                let m = token_mask(token, c);
                assert(m == token->0);
                lemma_unmasked_prefix(tokens, out, m, out.len() as int);
                assert(out.push(m).len() == k);
                assert(unmasked_pattern(tokens, out.push(m), k) == unmasked_pattern(tokens, out.push(m), k - 1));
            } else {
                assert(input_slots(tokens, k - 1) == t);
                assert(token_accepts(tokens[k - 1], typed[input_slots(tokens, k - 1)]));
                assert(valid_at(tokens, c, k - 1));
                let m = token_mask(token, c);
                assert(m == c);
                lemma_unmasked_prefix(tokens, out, m, out.len() as int);
                assert(out.push(m)[k - 1] == c);
                assert(typed.take(t + 1) == typed.take(t).push(c));
            }
        }
    }
}

/// Masking text that can be typed into a pattern and taking the mask off again gives the
/// typed text back.
pub proof fn lemma_pattern_mask_round_trip(m: MoonInputMaskPattern, typed: Seq<char>)
    requires
        m is Pattern,
        typeable(m->tokens@, typed),
    ensures
        unmasked(m, masked(m, typed)) == typed,
{
    let tokens = m->tokens@;
    let n = tokens.len() as int;
    if tokens.len() == 0 {
        assert(input_slots(tokens, 0) == 0);
        assert(typed.len() == 0);
        assert(unmasked_pattern(tokens, typed, 0) == Seq::<char>::empty());
    } else {
        lemma_mask_state_typeable(tokens, typed, n);
        let (out, t, stopped) = mask_state(tokens, typed, n);
        lemma_unmasked_past_end(tokens, out, n);
        assert(t == typed.len());
        assert(typed.take(t) == typed);
    }
}


/// Whether `m` is the fixed pattern written as `text`: it holds `text` and one token per
/// character, as [`MoonInputMaskPattern::new`] builds it.
pub open spec fn written_as(m: MoonInputMaskPattern, text: Seq<char>) -> bool {
    m matches MoonInputMaskPattern::Pattern { pattern: p, tokens } && p@ == text && tokens@ == tokens_of(text)
}

/// A pattern written as `text`.
pub open spec fn written_pattern(text: Seq<char>) -> MoonInputMaskPattern {
    choose|m: MoonInputMaskPattern| #[trigger] written_as(m, text)
}

impl From<&str> for MoonInputMaskPattern {
    /// The pattern written as `pattern`, as [`MoonInputMaskPattern::new`] builds it.
    fn from(pattern: &str) -> (r: MoonInputMaskPattern)
        ensures
            written_as(r, pattern@),
    {
        MoonInputMaskPattern::new(pattern)
    }
}

/// A converted pattern equals a spec-built one only in its view (its text and tokens are
/// fresh `String` and `Vec` values), so conversion makes no claim of `==`; what it gives is
/// stated by `written_as` in the `from` contracts.
impl vstd::std_specs::convert::FromSpecImpl<&str> for MoonInputMaskPattern {
    open spec fn obeys_from_spec() -> bool {
        false
    }

    open spec fn from_spec(v: &str) -> MoonInputMaskPattern {
        written_pattern(v@)
    }
}

impl From<String> for MoonInputMaskPattern {
    /// The pattern written as `pattern`, as [`MoonInputMaskPattern::new`] builds it.
    fn from(pattern: String) -> (r: MoonInputMaskPattern)
        ensures
            written_as(r, pattern@),
    {
        MoonInputMaskPattern::new(pattern.as_str())
    }
}

impl vstd::std_specs::convert::FromSpecImpl<String> for MoonInputMaskPattern {
    open spec fn obeys_from_spec() -> bool {
        false
    }

    open spec fn from_spec(v: String) -> MoonInputMaskPattern {
        written_pattern(v@)
    }
}

/// No `.` at or after `from` puts the first `.` at the end.
proof fn lemma_dot_from_none(s: Seq<char>, from: int)
    requires
        0 <= from,
        forall|i: int| from <= i < s.len() ==> #[trigger] s[i] != '.',
    ensures
        dot_from(s, from) == s.len(),
    decreases s.len() - from,
{
    if from < s.len() {
        lemma_dot_from_none(s, from + 1);
    }
}

/// A `.` at `k` with none from `from` before it is the first `.` at or after `from`.
proof fn lemma_dot_from_at(s: Seq<char>, from: int, k: int)
    requires
        0 <= from <= k < s.len(),
        s[k] == '.',
        forall|i: int| from <= i < k ==> #[trigger] s[i] != '.',
    ensures
        dot_from(s, from) == k,
    decreases k - from,
{
    if from < k {
        lemma_dot_from_at(s, from + 1, k);
    }
}

/// The first `.` at or after `from` lies between `from` and the end, with no `.` before it.
proof fn lemma_dot_from_bounds(s: Seq<char>, from: int)
    requires
        0 <= from <= s.len(),
    ensures
        from <= dot_from(s, from) <= s.len(),
        forall|i: int| from <= i < dot_from(s, from) ==> #[trigger] s[i] != '.',
        dot_from(s, from) < s.len() ==> s[dot_from(s, from)] == '.',
    decreases s.len() - from,
{
    if from < s.len() && s[from] != '.' {
        lemma_dot_from_bounds(s, from + 1);
    }
}

/// The parts of `a`, a `.`, then `b`, where neither `a` nor `b` holds a `.`: `a` is the
/// integer part, `b` the only fraction.
proof fn lemma_parts_around_point(a: Seq<char>, b: Seq<char>)
    requires
        forall|i: int| 0 <= i < a.len() ==> #[trigger] a[i] != '.',
        forall|i: int| 0 <= i < b.len() ==> #[trigger] b[i] != '.',
    ensures
        int_part(a + seq!['.'] + b) == a,
        frac_part(a + seq!['.'] + b) == Some(b),
        !has_second_dot(a + seq!['.'] + b),
{
    let s = a + seq!['.'] + b;
    assert forall|i: int| 0 <= i < a.len() implies #[trigger] s[i] != '.' by {
        assert(s[i] == a[i]);
    }
    lemma_dot_from_at(s, 0, a.len() as int);
    assert forall|i: int| a.len() + 1 <= i < s.len() implies #[trigger] s[i] != '.' by {
        assert(s[i] == b[i - a.len() - 1]);
    }
    lemma_dot_from_none(s, a.len() as int + 1);
    assert(s.take(a.len() as int) == a);
    assert(s.subrange(a.len() as int + 1, s.len() as int) == b);
}

/// A text without a `.` is all integer part.
proof fn lemma_parts_without_point(a: Seq<char>)
    requires
        forall|i: int| 0 <= i < a.len() ==> #[trigger] a[i] != '.',
    ensures
        int_part(a) == a,
        frac_part(a) is None,
        !has_second_dot(a),
{
    lemma_dot_from_none(a, 0);
    assert(a.take(a.len() as int) == a);
}

/// A number text made of an integer part, a `.` and a fraction, neither holding a `.`, is
/// well formed exactly when the integer part is non-empty and well formed on its own and
/// every fraction character is a digit or the separator.
///
/// In particular a well-formed integer part followed by a bare `.`, as the text stands
/// while the user has just typed the point, is well formed.
pub proof fn lemma_number_text_with_point(ip: Seq<char>, f: Seq<char>, separator: Option<char>)
    requires
        forall|i: int| 0 <= i < ip.len() ==> #[trigger] ip[i] != '.',
        forall|i: int| 0 <= i < f.len() ==> #[trigger] f[i] != '.',
    ensures
        valid_number_text(ip + seq!['.'] + f, separator) <==> (
            ip.len() > 0
            && valid_number_text(ip, separator)
            && forall|k: int| 0 <= k < f.len() ==> number_char(#[trigger] f[k], separator)
        ),
        ip.len() > 0 && valid_number_text(ip, separator) ==> valid_number_text(ip + seq!['.'], separator),
{
    lemma_parts_around_point(ip, f);
    lemma_parts_without_point(ip);
    let s = ip + seq!['.'] + f;
    assert(s.len() > 0);
    assert(int_part(s) == ip);
    assert(frac_part(s) == Some(f));
    let chars_ok = forall|k: int| 0 <= k < ip.len() ==> if sign_char(#[trigger] ip[k]) {
        k == 0
    } else {
        number_char(ip[k], separator)
    };
    let frac_ok = forall|k: int| 0 <= k < f.len() ==> number_char(#[trigger] f[k], separator);
    if ip.len() > 0 {
        assert(valid_number_text(ip, separator) == chars_ok);
    }
    let fp_ok = match frac_part(s) {
        Some(g) => forall|k: int| 0 <= k < g.len() ==> number_char(#[trigger] g[k], separator),
        None => true,
    };
    assert(fp_ok == frac_ok);
    let ip_ok = forall|k: int| 0 <= k < int_part(s).len() ==> if sign_char(#[trigger] int_part(s)[k]) {
        k == 0
    } else {
        number_char(int_part(s)[k], separator)
    };
    assert(ip_ok == chars_ok);
    assert(!has_second_dot(s));
    assert(valid_number_text(s, separator) == (!has_second_dot(s) && int_part(s).len() > 0 && ip_ok && fp_ok));
    assert(valid_number_text(s, separator) == (ip.len() > 0 && chars_ok && frac_ok));
    let e = Seq::<char>::empty();
    lemma_parts_around_point(ip, e);
    assert(ip + seq!['.'] + e == ip + seq!['.']);
}

/// Grouped digits hold a `.` only where the digits or the separator do.
proof fn lemma_grouped_no_point(d: Seq<char>, sep: char)
    requires
        sep != '.',
        forall|i: int| 0 <= i < d.len() ==> #[trigger] d[i] != '.',
    ensures
        forall|i: int| 0 <= i < grouped_reversed(d, sep).len() ==> #[trigger] grouped_reversed(d, sep)[i] != '.',
    decreases d.len(),
{
    if d.len() > 0 {
        let init = d.drop_last();
        assert forall|i: int| 0 <= i < init.len() implies #[trigger] init[i] != '.' by {
            assert(init[i] == d[i]);
        }
        lemma_grouped_no_point(init, sep);
        let prev = grouped_reversed(init, sep);
        let j = d.len() - 1;
        let mid = if j > 0 && j % 3 == 0 { prev.push(sep) } else { prev };
        assert forall|i: int| 0 <= i < mid.len() implies #[trigger] mid[i] != '.' by {
            if i < prev.len() {
                assert(mid[i] == prev[i]);
            }
        }
        assert(grouped_reversed(d, sep) == mid.push(d.last()));
        assert(d.last() == d[d.len() - 1]);
        assert forall|i: int| 0 <= i < mid.push(d.last()).len() implies #[trigger] mid.push(d.last())[i] != '.' by {
            if i < mid.len() {
                assert(mid.push(d.last())[i] == mid[i]);
            }
        }
    }
}

proof fn lemma_sign_from_bounds(s: Seq<char>, from: int)
    requires
        0 <= from,
    ensures
        from <= sign_from(s, from) <= s.len() || (from > s.len() && sign_from(s, from) == s.len()),
    decreases s.len() - from,
{
    if from < s.len() && !sign_char(s[from]) {
        lemma_sign_from_bounds(s, from + 1);
    }
}

/// With a fraction limit of `n` digits, a masked number shows after its `.` exactly the
/// first `n` digits of the typed fraction (all of them when there are fewer), never more,
/// and shows no `.` when there is no typed fraction or the limit is zero.
pub proof fn lemma_number_fraction_limited(text: Seq<char>, sep: char, n: usize)
    requires
        sep != '.',
    ensures
        ({
            let m = MoonInputMaskPattern::Number { separator: Some(sep), fraction: Some(n) };
            let out = masked(m, text);
            let t = without_char(text, sep);
            &&& match frac_part(t) {
                Some(f) => if n == 0 {
                    frac_part(out) is None
                } else {
                    frac_part(out) == Some(f.take(if n <= f.len() { n as int } else { f.len() as int }))
                },
                None => frac_part(out) is None,
            }
            &&& match frac_part(out) {
                Some(g) => g.len() <= n,
                None => true,
            }
        }),
{
    let m = MoonInputMaskPattern::Number { separator: Some(sep), fraction: Some(n) };
    let out = masked(m, text);
    let t = without_char(text, sep);
    lemma_dot_from_bounds(t, 0);
    let d = dot_from(t, 0);
    let ip = int_part(t);
    assert forall|i: int| 0 <= i < ip.len() implies #[trigger] ip[i] != '.' by {
        assert(ip[i] == t[i]);
    }
    let rev = ip.reverse();
    assert forall|i: int| 0 <= i < rev.len() implies #[trigger] rev[i] != '.' by {
        assert(rev[i] == ip[ip.len() - 1 - i]);
    }
    let p = sign_from(rev, 0);
    lemma_sign_from_bounds(rev, 0);
    let digits = if p < rev.len() { rev.remove(p) } else { rev };
    assert forall|i: int| 0 <= i < digits.len() implies #[trigger] digits[i] != '.' by {
        if p < rev.len() {
            if i < p {
                assert(digits[i] == rev[i]);
            } else {
                assert(digits[i] == rev[i + 1]);
            }
        }
    }
    let sign: Seq<char> = if p < rev.len() { seq![rev[p]] } else { Seq::empty() };
    assert forall|i: int| 0 <= i < sign.len() implies #[trigger] sign[i] != '.' by {
        assert(sign[i] == rev[p]);
    }
    lemma_grouped_no_point(digits, sep);
    let g = grouped_reversed(digits, sep);
    let body = g.reverse();
    assert forall|i: int| 0 <= i < body.len() implies #[trigger] body[i] != '.' by {
        assert(body[i] == g[g.len() - 1 - i]);
    }
    let a = sign + body;
    assert forall|i: int| 0 <= i < a.len() implies #[trigger] a[i] != '.' by {
        if i < sign.len() {
            assert(a[i] == sign[i]);
        } else {
            assert(a[i] == body[i - sign.len()]);
        }
    }
    match frac_part(t) {
        Some(f) => {
            lemma_dot_from_bounds(t, d + 1);
            assert forall|i: int| 0 <= i < f.len() implies #[trigger] f[i] != '.' by {
                assert(f[i] == t[d + 1 + i]);
            }
            if n == 0 {
                assert(out == a + Seq::<char>::empty());
                assert(a + Seq::<char>::empty() == a);
                lemma_parts_without_point(a);
            } else {
                let lim = if n < f.len() { f.take(n as int) } else { f };
                assert forall|i: int| 0 <= i < lim.len() implies #[trigger] lim[i] != '.' by {
                    assert(lim[i] == f[i]);
                }
                assert(out == sign + body + (seq!['.'] + lim));
                assert(sign + body + (seq!['.'] + lim) == a + seq!['.'] + lim);
                lemma_parts_around_point(a, lim);
                assert(lim == f.take(if n <= f.len() { n as int } else { f.len() as int }));
            }
        },
        None => {
            assert(out == a + Seq::<char>::empty());
            assert(a + Seq::<char>::empty() == a);
            lemma_parts_without_point(a);
        },
    }
}

/// Trimming trailing zeros keeps a prefix, drops only zeros, and leaves no zero at the end.
proof fn lemma_trim_zeros(s: Seq<char>)
    ensures
        trim_zeros(s).len() <= s.len(),
        trim_zeros(s) == s.take(trim_zeros(s).len() as int),
        forall|i: int| trim_zeros(s).len() <= i < s.len() ==> #[trigger] s[i] == '0',
        trim_zeros(s).len() > 0 ==> trim_zeros(s).last() != '0',
    decreases s.len(),
{
    if s.len() > 0 && s.last() == '0' {
        lemma_trim_zeros(s.drop_last());
        let r = trim_zeros(s.drop_last());
        assert(s.drop_last().take(r.len() as int) == s.take(r.len() as int));
        assert forall|i: int| r.len() <= i < s.len() implies #[trigger] s[i] == '0' by {
            if i < s.len() - 1 {
                assert(s[i] == s.drop_last()[i]);
            }
        }
    } else {
        assert(s.take(s.len() as int) == s);
    }
}

/// Taking a number mask off drops every separator and, when the text has a fraction, only
/// the zeros at its very end: the result is a prefix of the text without separators, and
/// what it leaves out is zeros, after a last character that is not one.
pub proof fn lemma_number_unmask_keeps_a_prefix(s: Seq<char>, sep: char, fraction: Option<usize>)
    ensures
        ({
            let m = MoonInputMaskPattern::Number { separator: Some(sep), fraction };
            let r = unmasked(m, s);
            let k = without_char(s, sep);
            &&& r.len() <= k.len()
            &&& r == k.take(r.len() as int)
            &&& forall|i: int| r.len() <= i < k.len() ==> #[trigger] k[i] == '0'
            &&& !k.contains('.') ==> r == k
            &&& k.contains('.') && r.len() > 0 ==> r.last() != '0'
        }),
{
    let k = without_char(s, sep);
    lemma_trim_zeros(k);
    assert(k.take(k.len() as int) == k);
}

/// A number text with a second `.` is never well formed.
pub proof fn lemma_number_text_with_two_points(a: Seq<char>, b: Seq<char>, c: Seq<char>, separator: Option<char>)
    requires
        forall|i: int| 0 <= i < a.len() ==> #[trigger] a[i] != '.',
        forall|i: int| 0 <= i < b.len() ==> #[trigger] b[i] != '.',
    ensures
        !valid_number_text(a + seq!['.'] + b + seq!['.'] + c, separator),
{
    let s = a + seq!['.'] + b + seq!['.'] + c;
    assert forall|i: int| 0 <= i < a.len() implies #[trigger] s[i] != '.' by {
        assert(s[i] == a[i]);
    }
    lemma_dot_from_at(s, 0, a.len() as int);
    let e: int = a.len() as int + 1 + b.len() as int;
    assert forall|i: int| a.len() + 1 <= i < e implies #[trigger] s[i] != '.' by {
        assert(s[i] == b[i - a.len() - 1]);
    }
    assert(s[e] == '.');
    lemma_dot_from_at(s, a.len() as int + 1, e);
    assert(has_second_dot(s));
}

/// Grouping digits from the right: one separator before every third digit after the
/// first, so that reading from the right a separator stands exactly at every fourth place.
proof fn lemma_grouped_shape(d: Seq<char>, sep: char)
    requires
        forall|i: int| 0 <= i < d.len() ==> #[trigger] d[i] != sep,
    ensures
        grouped_reversed(d, sep).len() == d.len() + (if d.len() > 0 { (d.len() - 1) / 3 } else { 0 }),
        forall|j: int| 0 <= j < grouped_reversed(d, sep).len() ==>
            (#[trigger] grouped_reversed(d, sep)[j] == sep <==> j % 4 == 3),
    decreases d.len(),
{
    if d.len() > 0 {
        let init = d.drop_last();
        assert forall|i: int| 0 <= i < init.len() implies #[trigger] init[i] != sep by {
            assert(init[i] == d[i]);
        }
        lemma_grouped_shape(init, sep);
        let prev = grouped_reversed(init, sep);
        let l = d.len() as int;
        let i = l - 1;
        let last = d.last();
        assert(last == d[l - 1]);
        assert(last != sep);
        if i > 0 && i % 3 == 0 {
            let m = i / 3;
            assert(i == 3 * m);
            assert((i - 1) / 3 == m - 1);
            assert(prev.len() == 4 * m - 1);
            let g = prev.push(sep).push(last);
            assert(grouped_reversed(d, sep) == g);
            assert((4 * m - 1) % 4 == 3);
            assert((4 * m) % 4 == 0);
            assert forall|j: int| 0 <= j < g.len() implies (#[trigger] g[j] == sep <==> j % 4 == 3) by {
                if j < prev.len() {
                    assert(g[j] == prev[j]);
                } else if j == prev.len() {
                    assert(g[j] == sep);
                } else {
                    assert(g[j] == last);
                }
            }
        } else {
            let g = prev.push(last);
            assert(grouped_reversed(d, sep) == g);
            if i > 0 {
                let m = i / 3;
                let r = i % 3;
                assert(i == 3 * m + r);
                assert(1 <= r <= 2);
                assert((i - 1) / 3 == m);
                assert(prev.len() == 4 * m + r);
                assert((4 * m + r) % 4 == r);
            }
            assert forall|j: int| 0 <= j < g.len() implies (#[trigger] g[j] == sep <==> j % 4 == 3) by {
                if j < prev.len() {
                    assert(g[j] == prev[j]);
                } else {
                    assert(g[j] == last);
                }
            }
        }
    }
}

/// A number mask shows a run of digits grouped by threes from the right: one separator
/// for every full group of three beyond the first digits, and, reading from the right,
/// separators exactly at every fourth place.
pub proof fn lemma_number_groups_by_threes(digits: Seq<char>, sep: char, fraction: Option<usize>)
    requires
        all_digits(digits),
        !ascii_digit(sep),
        sep != '.',
    ensures
        ({
            let out = masked(MoonInputMaskPattern::Number { separator: Some(sep), fraction }, digits);
            &&& out.len() == digits.len() + (if digits.len() > 0 { (digits.len() - 1) / 3 } else { 0 })
            &&& forall|j: int| 0 <= j < out.len() ==> (#[trigger] out[out.len() - 1 - j] == sep <==> j % 4 == 3)
        }),
{
    let m = MoonInputMaskPattern::Number { separator: Some(sep), fraction };
    assert forall|i: int| 0 <= i < digits.len() implies #[trigger] digits[i] != sep by {
        assert(ascii_digit(digits[i]));
    }
    lemma_without_absent(digits, sep);
    assert forall|i: int| 0 <= i < digits.len() implies #[trigger] digits[i] != '.' by {
        assert(ascii_digit(digits[i]));
    }
    lemma_no_dot(digits, 0);
    assert(int_part(digits) == digits);
    assert(frac_part(digits) is None);
    let rev = digits.reverse();
    assert forall|i: int| 0 <= i < rev.len() implies !sign_char(#[trigger] rev[i]) by {
        assert(rev[i] == digits[digits.len() - 1 - i]);
        assert(ascii_digit(digits[digits.len() - 1 - i]));
    }
    lemma_no_sign(rev, 0);
    assert forall|i: int| 0 <= i < rev.len() implies #[trigger] rev[i] != sep by {
        assert(rev[i] == digits[digits.len() - 1 - i]);
        assert(ascii_digit(digits[digits.len() - 1 - i]));
    }
    lemma_grouped_shape(rev, sep);
    let g = grouped_reversed(rev, sep);
    let body = g.reverse();
    assert(masked(m, digits) == Seq::<char>::empty() + body + Seq::<char>::empty());
    assert(Seq::<char>::empty() + body + Seq::<char>::empty() == body);
    let out = masked(m, digits);
    assert forall|j: int| 0 <= j < out.len() implies (#[trigger] out[out.len() - 1 - j] == sep <==> j % 4 == 3) by {
        assert(out[out.len() - 1 - j] == g[j]);
    }
}

/// A sign anywhere in the integer part but at its start makes a number text ill formed,
/// whatever fraction follows.
pub proof fn lemma_number_text_sign_only_first(ip: Seq<char>, rest: Seq<char>, k: int, separator: Option<char>)
    requires
        forall|i: int| 0 <= i < ip.len() ==> #[trigger] ip[i] != '.',
        0 < k < ip.len(),
        sign_char(ip[k]),
        rest.len() == 0 || rest[0] == '.',
    ensures
        !valid_number_text(ip + rest, separator),
{
    let s = ip + rest;
    assert forall|i: int| 0 <= i < ip.len() implies #[trigger] s[i] != '.' by {
        assert(s[i] == ip[i]);
    }
    if rest.len() == 0 {
        assert(s == ip);
        lemma_dot_from_none(s, 0);
    } else {
        assert(s[ip.len() as int] == '.');
        lemma_dot_from_at(s, 0, ip.len() as int);
    }
    assert(int_part(s) == ip);
    assert(int_part(s)[k] == ip[k]);
}

} // verus!
