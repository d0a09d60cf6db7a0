use vstd::prelude::*;

verus! {

/// Whether `c` has the Unicode `White_Space` property, which is what
/// `char::is_whitespace` tests.
pub open spec fn spec_is_whitespace(c: char) -> bool {
    let u = c as u32;
    ||| 0x09 <= u <= 0x0d
    ||| u == 0x20
    ||| u == 0x85
    ||| u == 0xa0
    ||| u == 0x1680
    ||| 0x2000 <= u <= 0x200a
    ||| u == 0x2028
    ||| u == 0x2029
    ||| u == 0x202f
    ||| u == 0x205f
    ||| u == 0x3000
}

/// Whether `c` is whitespace: whether it has the Unicode `White_Space`
/// property, as `char::is_whitespace` documents.
pub fn is_whitespace(c: char) -> (result: bool)
    ensures
        result == spec_is_whitespace(c),
{
    let u = c as u32;
    (0x09 <= u && u <= 0x0d) || u == 0x20 || u == 0x85 || u == 0xa0 || u == 0x1680 || (0x2000 <= u
        && u <= 0x200a) || u == 0x2028 || u == 0x2029 || u == 0x202f || u == 0x205f || u == 0x3000
}

/// The Unicode lowercase mapping of a character, as `char::to_lowercase`
/// yields it.
pub uninterp spec fn lowercase_mapping(c: char) -> Seq<char>;

/// Whether `c` is an ASCII upper case letter.
pub open spec fn is_ascii_upper(c: char) -> bool {
    'A' <= c <= 'Z'
}

/// The lowercase form of `c` as a sequence of characters: for ASCII, an upper
/// case letter becomes the letter 32 code points later and any other
/// character stays; other characters take their Unicode lowercase mapping.
pub open spec fn spec_lowercase(c: char) -> Seq<char> {
    if is_ascii_upper(c) {
        seq![((c as u32) + 32) as char]
    } else if (c as u32) < 128 {
        seq![c]
    } else {
        lowercase_mapping(c)
    }
}

/// The characters of the lowercase mapping of `c` (`char::to_lowercase`).
///
/// Calls `char::to_lowercase` and collects what it yields. The contract names
/// the result (it is the Unicode lowercase mapping, a function of `c`), states
/// that it holds at least one character, and gives it for ASCII: an upper case
/// letter maps to the letter 32 code points later, any other ASCII character
/// to itself. For other characters the mapping is left to the name.
#[verifier::external_body]
pub(crate) fn to_lowercase(c: char) -> (result: Vec<char>)
    ensures
        result@ == lowercase_mapping(c),
        result@.len() >= 1,
        is_ascii_upper(c) ==> result@ == seq![((c as u32) + 32) as char],
        (c as u32) < 128 && !is_ascii_upper(c) ==> result@ == seq![c],
{
    c.to_lowercase().collect()
}

/// The characters of a string, in order.
pub fn chars_of(s: &str) -> (result: Vec<char>)
    ensures
        result@ == s@,
{
    broadcast use vstd::string::axiom_spec_iter;

    let mut result: Vec<char> = Vec::new();
    for c in it: s.chars()
        invariant
            it.seq() == s@,
            result@ == s@.take(it.index() as int),
    {
        proof {
            assert(s@.take(it.index() as int + 1) == result@.push(c));
        }
        result.push(c);
    }
    assert(result@ == s@);
    result
}

/// The string made of the characters of `chars`, in order.
///
/// Collects the characters into a `String` (`String: FromIterator<char>`);
/// the contract states that the string holds exactly these characters.
#[verifier::external_body]
pub(crate) fn string_from_chars(chars: &[char]) -> (result: String)
    ensures
        result@ == chars@,
{
    chars.iter().collect()
}

/// The normalized form of `s` when scanning starts inside a quoted string
/// (`in_string`) or outside: outside quotes whitespace is dropped and every
/// character is replaced by its lowercase form; quotes and everything
/// between them are kept as they are.
pub open spec fn normalize_from(s: Seq<char>, in_string: bool) -> Seq<char>
    decreases s.len(),
{
    if s.len() == 0 {
        Seq::empty()
    } else {
        let c = s[0];
        let rest = s.drop_first();
        if c == '"' {
            seq![c] + normalize_from(rest, !in_string)
        } else if in_string {
            seq![c] + normalize_from(rest, in_string)
        } else if spec_is_whitespace(c) {
            normalize_from(rest, in_string)
        } else {
            spec_lowercase(c) + normalize_from(rest, in_string)
        }
    }
}

/// The normalized form of a raw formula.
pub open spec fn spec_normalize(s: Seq<char>) -> Seq<char> {
    normalize_from(s, false)
}

/// The characters of `s` that are not whitespace, in order.
pub open spec fn spec_without_whitespace(s: Seq<char>) -> Seq<char>
    decreases s.len(),
{
    if s.len() == 0 {
        Seq::empty()
    } else if spec_is_whitespace(s[0]) {
        spec_without_whitespace(s.drop_first())
    } else {
        seq![s[0]] + spec_without_whitespace(s.drop_first())
    }
}

/// A raw formula in normal form: whitespace outside quotes removed and
/// characters outside quotes in lower case.
pub struct NormalizedRawFormula {
    text: Vec<char>,
}

impl View for NormalizedRawFormula {
    type V = Seq<char>;

    closed spec fn view(&self) -> Seq<char> {
        self.text@
    }
}

impl NormalizedRawFormula {
    /// Normalizes a raw formula: outside double quotes, whitespace is removed
    /// and characters are lowercased; quotes and quoted text are kept.
    pub fn from(s: &str) -> (result: Self)
        ensures
            result@ == spec_normalize(s@),
    {
        let chars = chars_of(s);
        Self { text: normalize_chars(&chars) }
    }

    /// The normalized text as a string.
    pub fn as_string(&self) -> (result: String)
        ensures
            result@ == self@,
    {
        string_from_chars(self.text.as_slice())
    }

    /// The normalized text as characters.
    pub fn chars(&self) -> (result: &[char])
        ensures
            result@ == self@,
    {
        self.text.as_slice()
    }
}

/// Normalizes a sequence of characters (see [`NormalizedRawFormula::from`]).
pub fn normalize_chars(chars: &[char]) -> (result: Vec<char>)
    ensures
        result@ == spec_normalize(chars@),
{
    let mut result: Vec<char> = Vec::new();
    let mut in_string = false;
    let mut i: usize = 0;
    assert(chars@.skip(0) == chars@);
    while i < chars.len()
        invariant
            i <= chars.len(),
            result@ + normalize_from(chars@.skip(i as int), in_string) == spec_normalize(chars@),
        decreases chars.len() - i,
    {
        let c = chars[i];
        assert(chars@.skip(i as int).drop_first() == chars@.skip(i + 1));
        assert(chars@.skip(i as int)[0] == c);
        let ghost before = result@;
        let ghost old_in = in_string;
        if c == '"' {
            in_string = !in_string;
            result.push(c);
            assert(result@ == before + seq![c]);
        } else if in_string {
            result.push(c);
            assert(result@ == before + seq![c]);
        } else if !is_whitespace(c) {
            let lower = to_lowercase(c);
            assert(lower@ == spec_lowercase(c));
            let mut j: usize = 0;
            while j < lower.len()
                invariant
                    j <= lower.len(),
                    result@ == before + lower@.take(j as int),
                decreases lower.len() - j,
            {
                result.push(lower[j]);
                assert(lower@.take(j + 1) == lower@.take(j as int).push(lower@[j as int]));
                j += 1;
            }
            assert(lower@.take(lower.len() as int) == lower@);
        }
        proof {
            let rest = normalize_from(chars@.skip(i + 1), in_string);
            assert((before + normalize_from(chars@.skip(i as int), old_in)) =~= (result@ + rest)) by {
                if c == '"' || old_in {
                    assert(before + (seq![c] + rest) =~= (before + seq![c]) + rest);
                } else if !spec_is_whitespace(c) {
                    assert(before + (spec_lowercase(c) + rest) =~= (before + spec_lowercase(c)) + rest);
                }
            }
        }
        i += 1;
    }
    assert(chars@.skip(i as int) == Seq::<char>::empty());
    result
}

/// A string with all whitespace removed.
pub struct StringWithoutWhitespace {
    text: Vec<char>,
}

impl View for StringWithoutWhitespace {
    type V = Seq<char>;

    closed spec fn view(&self) -> Seq<char> {
        self.text@
    }
}

impl StringWithoutWhitespace {
    /// Removes every whitespace character from `s`.
    pub fn from(s: &str) -> (result: Self)
        ensures
            result@ == spec_without_whitespace(s@),
    {
        let chars = chars_of(s);
        let mut text: Vec<char> = Vec::new();
        let mut i: usize = 0;
        assert(chars@.skip(0) == chars@);
        while i < chars.len()
            invariant
                i <= chars.len(),
                chars@ == s@,
                text@ + spec_without_whitespace(chars@.skip(i as int)) == spec_without_whitespace(s@),
            decreases chars.len() - i,
        {
            let c = chars[i];
            assert(chars@.skip(i as int).drop_first() == chars@.skip(i + 1));
            let ghost before = text@;
            if !is_whitespace(c) {
                text.push(c);
                assert(before + (seq![c] + spec_without_whitespace(chars@.skip(i + 1))) == text@ + spec_without_whitespace(chars@.skip(i + 1)));
            }
            i += 1;
        }
        assert(chars@.skip(i as int) == Seq::<char>::empty());
        assert(text@ + Seq::<char>::empty() == text@);
        Self { text }
    }

    /// The text as a string.
    pub fn as_string(&self) -> (result: String)
        ensures
            result@ == self@,
    {
        string_from_chars(self.text.as_slice())
    }
}

/// The first position at or after `i` where `delimiter` stands at
/// parenthesis depth zero outside any quoted string, scanning from the state
/// `depth` and `in_string`. A `)` never takes the depth below zero.
pub open spec fn split_point_from(
    s: Seq<char>,
    delimiter: char,
    i: int,
    depth: nat,
    in_string: bool,
) -> Option<int>
    decreases s.len() - i,
{
    if i < 0 || i >= s.len() {
        None
    } else {
        let c = s[i];
        if c == '"' {
            split_point_from(s, delimiter, i + 1, depth, !in_string)
        } else if in_string {
            split_point_from(s, delimiter, i + 1, depth, in_string)
        } else if c == '(' {
            split_point_from(s, delimiter, i + 1, depth + 1, in_string)
        } else if c == ')' {
            split_point_from(
                s,
                delimiter,
                i + 1,
                if depth == 0 {
                    0
                } else {
                    (depth - 1) as nat
                },
                in_string,
            )
        } else if c == delimiter && depth == 0 {
            Some(i)
        } else {
            split_point_from(s, delimiter, i + 1, depth, in_string)
        }
    }
}

/// The position where `s` splits at `delimiter` outside parentheses and
/// quotes, if there is one.
pub open spec fn spec_split_point(s: Seq<char>, delimiter: char) -> Option<int> {
    split_point_from(s, delimiter, 0, 0, false)
}

/// A split point lies inside the text.
pub proof fn lemma_split_point_in_range(
    s: Seq<char>,
    delimiter: char,
    i: int,
    depth: nat,
    in_string: bool,
)
    ensures
        split_point_from(s, delimiter, i, depth, in_string) matches Some(k) ==> i <= k < s.len()
            && s[k] == delimiter,
    decreases s.len() - i,
{
    if 0 <= i < s.len() {
        let c = s[i];
        let next_depth: nat = if c == '(' {
            depth + 1
        } else if c == ')' && !in_string && depth > 0 {
            (depth - 1) as nat
        } else if c == ')' && !in_string {
            0
        } else {
            depth
        };
        lemma_split_point_in_range(s, delimiter, i + 1, depth + 1, in_string);
        lemma_split_point_in_range(s, delimiter, i + 1, depth, in_string);
        lemma_split_point_in_range(s, delimiter, i + 1, depth, !in_string);
        lemma_split_point_in_range(s, delimiter, i + 1, 0, in_string);
        if depth > 0 {
            lemma_split_point_in_range(s, delimiter, i + 1, (depth - 1) as nat, in_string);
        }
    }
}

/// Splits `s` at the first `delimiter` that stands outside parentheses and
/// outside double-quoted strings, returning the text before and after it.
pub fn split_once_outside_parentheses(s: &[char], delimiter: char) -> (result: Option<
    (&[char], &[char]),
>)
    ensures
        match spec_split_point(s@, delimiter) {
            Some(k) => result matches Some((left, right)) && 0 <= k < s@.len() && left@
                == s@.take(k) && right@ == s@.skip(k + 1),
            None => result is None,
        },
{
    let mut depth: usize = 0;
    let mut in_string = false;
    let mut i: usize = 0;
    proof {
        lemma_split_point_in_range(s@, delimiter, 0, 0, false);
    }
    while i < s.len()
        invariant
            i <= s.len(),
            depth <= i,
            split_point_from(s@, delimiter, i as int, depth as nat, in_string) == spec_split_point(
                s@,
                delimiter,
            ),
        decreases s.len() - i,
    {
        let c = s[i];
        proof {
            lemma_split_point_in_range(s@, delimiter, i as int, depth as nat, in_string);
        }
        if c == '"' {
            in_string = !in_string;
        } else if in_string {
        } else if c == '(' {
            depth += 1;
        } else if c == ')' {
            if depth > 0 {
                depth -= 1;
            }
        } else if c == delimiter && depth == 0 {
            let left = &s[0..i];
            let right = &s[i + 1..s.len()];
            assert(left@ == s@.take(i as int));
            assert(right@ == s@.skip(i + 1));
            return Some((left, right));
        }
        i += 1;
    }
    None
}

/// Whether `c` is one of the ASCII digits `0` to `9`.
pub open spec fn is_ascii_digit(c: char) -> bool {
    '0' <= c <= '9'
}

/// Whether every character of `s` is an ASCII digit.
pub open spec fn all_digits(s: Seq<char>) -> bool {
    forall|i: int| 0 <= i < s.len() ==> is_ascii_digit(#[trigger] s[i])
}

/// The number that a sequence of decimal digits denotes.
pub open spec fn decimal_value(s: Seq<char>) -> int
    decreases s.len(),
{
    if s.len() == 0 {
        0
    } else {
        decimal_value(s.drop_last()) * 10 + (s.last() as int - '0' as int)
    }
}

/// What `u32::from_str` gives: an optional leading `+`, then at least one
/// ASCII digit and nothing else, denoting a number that fits in a `u32`.
pub open spec fn spec_parse_u32(s: Seq<char>) -> Option<u32> {
    let digits = if s.len() > 0 && s[0] == '+' {
        s.drop_first()
    } else {
        s
    };
    if digits.len() > 0 && all_digits(digits) && decimal_value(digits) <= u32::MAX {
        Some(decimal_value(digits) as u32)
    } else {
        None
    }
}

/// Parses a decimal `u32` as `u32::from_str` does.
pub fn parse_u32(s: &[char]) -> (result: Option<u32>)
    ensures
        result == spec_parse_u32(s@),
{
    let start: usize = if s.len() > 0 && s[0] == '+' {
        1
    } else {
        0
    };
    let ghost digits = if s@.len() > 0 && s@[0] == '+' {
        s@.drop_first()
    } else {
        s@
    };
    assert(digits == s@.skip(start as int));
    if start >= s.len() {
        return None;
    }
    let mut value: u64 = 0;
    let mut overflow = false;
    let mut i: usize = start;
    while i < s.len()
        invariant
            start <= i <= s.len(),
            digits == s@.skip(start as int),
            digits == (if s@.len() > 0 && s@[0] == '+' { s@.drop_first() } else { s@ }),
            all_digits(s@.subrange(start as int, i as int)),
            !overflow ==> value == decimal_value(s@.subrange(start as int, i as int)) && value
                <= u32::MAX,
            overflow ==> decimal_value(s@.subrange(start as int, i as int)) > u32::MAX,
            decimal_value(s@.subrange(start as int, i as int)) >= 0,
        decreases s.len() - i,
    {
        let c = s[i];
        let ghost prefix = s@.subrange(start as int, i as int);
        assert(s@.subrange(start as int, i + 1).drop_last() == prefix);
        if !('0' <= c && c <= '9') {
            assert(!all_digits(digits)) by {
                assert(digits[i - start] == c);
            }

            return None;
        }
        let d = (c as u32 - '0' as u32) as u64;
        if !overflow {
            let next = value * 10 + d;
            if next > 0xffff_ffff {
                overflow = true;
            } else {
                value = next;
            }
        }
        i += 1;
    }
    assert(s@.subrange(start as int, s.len() as int) == digits);
    if overflow {
        None
    } else {
        Some(value as u32)
    }
}

/// The position of the first `c` in `s`, if any.
pub open spec fn first_index_of(s: Seq<char>, c: char) -> Option<int> {
    if exists|i: int| 0 <= i < s.len() && s[i] == c {
        Some(choose|i: int| 0 <= i < s.len() && s[i] == c && forall|j: int| 0 <= j < i ==> s[j] != c)
    } else {
        None
    }
}

/// The address that a text of the form `column,row` denotes, split at the
/// first comma, each part read as `u32::from_str` reads it.
pub open spec fn spec_parse_cell_address(s: Seq<char>) -> Option<crate::address::CellAddress> {
    match first_index_of(s, ',') {
        None => None,
        Some(i) => match (spec_parse_u32(s.take(i)), spec_parse_u32(s.skip(i + 1))) {
            (Some(column), Some(row)) => Some(crate::address::CellAddress { column, row }),
            _ => None,
        },
    }
}

/// The ASCII digit for `d`, below ten.
pub open spec fn digit_char(d: nat) -> char {
    ((d + 48) as u32) as char
}

/// The decimal text of `n`, without leading zeros.
pub open spec fn decimal_text(n: nat) -> Seq<char>
    decreases n,
{
    if n < 10 {
        seq![digit_char(n)]
    } else {
        decimal_text(n / 10).push(digit_char(n % 10))
    }
}

/// The decimal text of a number is a non-empty run of digits denoting it.
proof fn lemma_decimal_text(n: nat)
    ensures
        decimal_text(n).len() > 0,
        all_digits(decimal_text(n)),
        decimal_value(decimal_text(n)) == n,
    decreases n,
{
    if n < 10 {
        assert(decimal_text(n).drop_last() =~= Seq::<char>::empty());
        assert(digit_char(n) as int == n + 48);
        assert('0' as int == 48);
        assert(decimal_text(n).last() == digit_char(n));
        assert(decimal_value(decimal_text(n)) == decimal_value(Seq::<char>::empty()) * 10 + (digit_char(n) as int - '0' as int));
    } else {
        lemma_decimal_text(n / 10);
        let t = decimal_text(n / 10);
        assert(decimal_text(n).drop_last() =~= t);
        assert(digit_char(n % 10) as int == n % 10 + 48);
        assert((n / 10) * 10 + n % 10 == n) by (nonlinear_arith);
        assert('0' as int == 48);
        assert(decimal_text(n).last() == digit_char(n % 10));
        assert(decimal_value(decimal_text(n)) == decimal_value(t) * 10 + (digit_char(n % 10) as int - '0' as int));
        assert forall|i: int| 0 <= i < decimal_text(n).len() implies is_ascii_digit(#[trigger] decimal_text(n)[i]) by {
            if i < t.len() {
                assert(decimal_text(n)[i] == t[i]);
            }
        }
    }
}

/// Reading back the text `column,row` of an address, each number written in
/// decimal, gives the address.
pub proof fn lemma_parse_printed_address(column: u32, row: u32)
    ensures
        spec_parse_cell_address(decimal_text(column as nat) + seq![','] + decimal_text(row as nat))
            == Some(crate::address::CellAddress { column, row }),
{
    let t1 = decimal_text(column as nat);
    let t2 = decimal_text(row as nat);
    let s = t1 + seq![','] + t2;
    lemma_decimal_text(column as nat);
    lemma_decimal_text(row as nat);
    let k = t1.len() as int;
    assert(s[k] == ',');
    assert forall|j: int| 0 <= j < k implies s[j] != ',' by {
        assert(s[j] == t1[j]);
        assert(is_ascii_digit(t1[j]));
    }
    assert(exists|i: int| 0 <= i < s.len() && s[i] == ',');
    let i = choose|i: int| 0 <= i < s.len() && s[i] == ',' && forall|j: int| 0 <= j < i ==> s[j] != ',';
    assert(i == k) by {
        if i > k {
            assert(s[k] != ',');
        }
        if i < k {
            assert(s[i] != ',');
        }
    }
    assert(first_index_of(s, ',') == Some(k));
    assert(s.take(k) =~= t1);
    assert(s.skip(k + 1) =~= t2);
    assert(is_ascii_digit(t1[0]));
    assert(is_ascii_digit(t2[0]));
}

/// Reads a cell address written as `column,row`.
pub fn parse_cell_address(s: &[char]) -> (result: Option<crate::address::CellAddress>)
    ensures
        result == spec_parse_cell_address(s@),
{
    let mut i: usize = 0;
    while i < s.len()
        invariant
            i <= s.len(),
            forall|j: int| 0 <= j < i ==> s@[j] != ',',
        decreases s.len() - i,
    {
        if s[i] == ',' {
            let ghost k = first_index_of(s@, ',')->0;
            assert(k == i) by {
                assert(s@[i as int] == ',');
                if k < i {
                } else if k > i {
                }
            }
            let column = parse_u32(&s[0..i]);
            let row = parse_u32(&s[i + 1..s.len()]);
            assert(s@.subrange(0, i as int) == s@.take(i as int));
            assert(s@.subrange(i + 1, s@.len() as int) == s@.skip(i + 1));
            return match (column, row) {
                (Some(column), Some(row)) => Some(crate::address::CellAddress::new(column, row)),
                _ => None,
            };
        }
        i += 1;
    }
    None
}

/// The first position at or after `i` that does not hold an ASCII digit.
pub open spec fn digit_run_end(s: Seq<char>, i: int) -> int
    decreases s.len() - i,
{
    if i < 0 || i >= s.len() || !is_ascii_digit(s[i]) {
        i
    } else {
        digit_run_end(s, i + 1)
    }
}

/// Whether `s` is an exponent: an optional sign followed by at least one
/// ASCII digit.
pub open spec fn is_exponent_digits(s: Seq<char>) -> bool {
    let digits = if s.len() > 0 && (s[0] == '+' || s[0] == '-') {
        s.drop_first()
    } else {
        s
    };
    digits.len() > 0 && all_digits(digits)
}

/// Whether `s` is a decimal number without sign: digits, optionally a point
/// and more digits, at least one digit in all, then optionally `e` or `E`
/// and an exponent.
pub open spec fn is_decimal_number(s: Seq<char>) -> bool {
    let int_end = digit_run_end(s, 0);
    let has_point = int_end < s.len() && s[int_end] == '.';
    let mantissa_end = if has_point {
        digit_run_end(s, int_end + 1)
    } else {
        int_end
    };
    let digit_count = if has_point {
        mantissa_end - 1
    } else {
        mantissa_end
    };
    &&& digit_count > 0
    &&& (mantissa_end == s.len() || ((s[mantissa_end] == 'e' || s[mantissa_end] == 'E')
        && is_exponent_digits(s.skip(mantissa_end + 1))))
}

/// The code point of the ASCII lower case form of `c` (other characters
/// unchanged).
pub open spec fn ascii_lower(c: char) -> int {
    if is_ascii_upper(c) {
        (c as u32) + 32
    } else {
        c as u32 as int
    }
}

/// Whether `s` spells `word` (given in lower case), ignoring ASCII case.
pub open spec fn equals_ignoring_ascii_case(s: Seq<char>, word: Seq<char>) -> bool {
    s.len() == word.len() && forall|i: int| 0 <= i < s.len() ==> ascii_lower(#[trigger] s[i]) == word[i] as u32
}

/// Whether `s` is `inf`, `infinity` or `nan`, ignoring ASCII case.
pub open spec fn is_infinity_or_nan(s: Seq<char>) -> bool {
    ||| equals_ignoring_ascii_case(s, seq!['i', 'n', 'f'])
    ||| equals_ignoring_ascii_case(s, seq!['i', 'n', 'f', 'i', 'n', 'i', 't', 'y'])
    ||| equals_ignoring_ascii_case(s, seq!['n', 'a', 'n'])
}

/// Whether `s` is a literal that `f64::from_str` accepts: an optional sign,
/// then a decimal number or one of `inf`, `infinity`, `nan` in any case.
pub open spec fn spec_is_float_literal(s: Seq<char>) -> bool {
    let body = if s.len() > 0 && (s[0] == '+' || s[0] == '-') {
        s.drop_first()
    } else {
        s
    };
    &&& body.len() > 0
    &&& (is_decimal_number(body) || is_infinity_or_nan(body))
}

/// Finds the first position at or after `i` that holds no ASCII digit.
fn skip_digits(s: &[char], i: usize) -> (end: usize)
    requires
        i <= s.len(),
    ensures
        end == digit_run_end(s@, i as int),
        i <= end <= s.len(),
{
    let mut j = i;
    while j < s.len() && '0' <= s[j] && s[j] <= '9'
        invariant
            i <= j <= s.len(),
            digit_run_end(s@, j as int) == digit_run_end(s@, i as int),
        decreases s.len() - j,
    {
        j += 1;
    }
    j
}

/// Whether `s` spells `word` ignoring ASCII case.
fn matches_ignoring_ascii_case(s: &[char], word: &[char]) -> (result: bool)
    requires
        forall|i: int| 0 <= i < word@.len() ==> !is_ascii_upper(#[trigger] word@[i]),
    ensures
        result == equals_ignoring_ascii_case(s@, word@),
{
    if s.len() != word.len() {
        return false;
    }
    let mut i: usize = 0;
    while i < s.len()
        invariant
            i <= s.len(),
            s@.len() == word@.len(),
            forall|j: int| 0 <= j < i ==> ascii_lower(#[trigger] s@[j]) == word@[j] as u32,
        decreases s.len() - i,
    {
        let c = s[i];
        let w = word[i];
        let same = if 'A' <= c && c <= 'Z' {
            (c as u32) + 32 == (w as u32)
        } else {
            (c as u32) == (w as u32)
        };
        if !same {
            return false;
        }
        i += 1;
    }
    true
}

/// Whether `f64::from_str` accepts `s` (see [`spec_is_float_literal`]).
pub fn is_float_literal(s: &[char]) -> (result: bool)
    ensures
        result == spec_is_float_literal(s@),
{
    let start: usize = if s.len() > 0 && (s[0] == '+' || s[0] == '-') {
        1
    } else {
        0
    };
    let body = &s[start..s.len()];
    assert(body@ == (if s@.len() > 0 && (s@[0] == '+' || s@[0] == '-') {
        s@.drop_first()
    } else {
        s@
    }));
    if body.len() == 0 {
        return false;
    }
    let inf = ['i', 'n', 'f'];
    let infinity = ['i', 'n', 'f', 'i', 'n', 'i', 't', 'y'];
    let nan = ['n', 'a', 'n'];
    assert(inf@ == seq!['i', 'n', 'f']);
    assert(infinity@ == seq!['i', 'n', 'f', 'i', 'n', 'i', 't', 'y']);
    assert(nan@ == seq!['n', 'a', 'n']);
    let special = matches_ignoring_ascii_case(body, inf.as_slice())
        || matches_ignoring_ascii_case(body, infinity.as_slice())
        || matches_ignoring_ascii_case(body, nan.as_slice());
    special || is_decimal_number_exec(body)
}

/// Whether `s` is a decimal number (see [`is_decimal_number`]).
fn is_decimal_number_exec(s: &[char]) -> (result: bool)
    ensures
        result == is_decimal_number(s@),
{
    let int_end = skip_digits(s, 0);
    let has_point = int_end < s.len() && s[int_end] == '.';
    let mantissa_end = if has_point {
        skip_digits(s, int_end + 1)
    } else {
        int_end
    };
    let digit_count = if has_point {
        mantissa_end - 1
    } else {
        mantissa_end
    };
    if digit_count == 0 {
        return false;
    }
    if mantissa_end == s.len() {
        return true;
    }
    if !(s[mantissa_end] == 'e' || s[mantissa_end] == 'E') {
        return false;
    }
    let exponent = &s[mantissa_end + 1..s.len()];
    assert(exponent@ == s@.skip(mantissa_end + 1));
    let exp_start: usize = if exponent.len() > 0 && (exponent[0] == '+' || exponent[0] == '-') {
        1
    } else {
        0
    };
    if exp_start >= exponent.len() {
        return false;
    }
    let digits_end = skip_digits(exponent, exp_start);
    let result = digits_end == exponent.len();
    proof {
        let digits = exponent@.skip(exp_start as int);
        assert(digits == (if exponent@.len() > 0 && (exponent@[0] == '+' || exponent@[0] == '-') {
            exponent@.drop_first()
        } else {
            exponent@
        }));
        lemma_digit_run_end(exponent@, exp_start as int);
        if result {
            assert forall|k: int| 0 <= k < digits.len() implies is_ascii_digit(#[trigger] digits[k]) by {
                assert(digits[k] == exponent@[k + exp_start]);
            }
        } else {
            assert(!is_ascii_digit(digits[digits_end - exp_start]));
        }
    }
    result
}

/// Every position from `i` up to the end of the digit run holds a digit, and
/// the run ends at the end of the text or at a non-digit.
pub proof fn lemma_digit_run_end(s: Seq<char>, i: int)
    requires
        0 <= i <= s.len(),
    ensures
        i <= digit_run_end(s, i) <= s.len(),
        forall|k: int| i <= k < digit_run_end(s, i) ==> is_ascii_digit(#[trigger] s[k]),
        digit_run_end(s, i) < s.len() ==> !is_ascii_digit(s[digit_run_end(s, i)]),
    decreases s.len() - i,
{
    if i < s.len() && is_ascii_digit(s[i]) {
        lemma_digit_run_end(s, i + 1);
    }
}

} // verus!
