use vstd::prelude::*;
use crate::address::{CellAddress, CellRectangle};
use crate::text::{
    first_index_of, is_float_literal, lemma_split_point_in_range, normalize_chars,
    parse_cell_address, spec_is_float_literal, spec_normalize, spec_parse_cell_address,
    spec_split_point, split_once_outside_parentheses, string_from_chars, chars_of,
};

verus! {

/// A parsed formula.
#[derive(Debug, PartialEq)]
pub enum Formula {
    /// A number, kept as the literal text that `f64::from_str` accepts.
    NumberLiteral(String),
    /// `true` or `false`.
    BooleanLiteral(bool),
    /// Text between double quotes (the quotes not included).
    TextLiteral(String),
    /// `(column,row)`: the value of one cell.
    CellReference(CellAddress),
    /// `sum(column,row:column,row)`: the sum over a rectangle.
    AreaSum(CellRectangle),
    /// `if(condition, when_true, when_false)`.
    Conditional(Box<Formula>, Box<Formula>, Box<Formula>),
    /// `indirect(reference)`: the value of the cell whose address the
    /// reference evaluates to, as text.
    Indirect(Box<Formula>),
    /// `randbetween(lower, upper)`: a random integer between the bounds.
    RandBetween(Box<Formula>, Box<Formula>),
    /// `sequence(rows, columns)`: a dynamic array counting from one.
    Sequence(Box<Formula>, Box<Formula>),
    /// Text that is none of the above; the text is kept as the error message.
    IllFormed(String),
}

/// The mathematical form of a [`Formula`]: the same tree, with texts as
/// sequences of characters.
pub enum FormulaView {
    NumberLiteral(Seq<char>),
    BooleanLiteral(bool),
    TextLiteral(Seq<char>),
    CellReference(CellAddress),
    AreaSum(CellRectangle),
    Conditional(Box<FormulaView>, Box<FormulaView>, Box<FormulaView>),
    Indirect(Box<FormulaView>),
    RandBetween(Box<FormulaView>, Box<FormulaView>),
    Sequence(Box<FormulaView>, Box<FormulaView>),
    IllFormed(Seq<char>),
}

impl Formula {
    /// The mathematical form of the formula.
    pub open spec fn model(&self) -> FormulaView
        decreases self,
    {
        match self {
            Formula::NumberLiteral(t) => FormulaView::NumberLiteral(t@),
            Formula::BooleanLiteral(b) => FormulaView::BooleanLiteral(*b),
            Formula::TextLiteral(t) => FormulaView::TextLiteral(t@),
            Formula::CellReference(a) => FormulaView::CellReference(*a),
            Formula::AreaSum(r) => FormulaView::AreaSum(*r),
            Formula::Conditional(c, t, f) => FormulaView::Conditional(
                Box::new(c.model()),
                Box::new(t.model()),
                Box::new(f.model()),
            ),
            Formula::Indirect(r) => FormulaView::Indirect(Box::new(r.model())),
            Formula::RandBetween(l, u) => FormulaView::RandBetween(
                Box::new(l.model()),
                Box::new(u.model()),
            ),
            Formula::Sequence(r, c) => FormulaView::Sequence(Box::new(r.model()), Box::new(c.model())),
            Formula::IllFormed(t) => FormulaView::IllFormed(t@),
        }
    }
}

impl View for Formula {
    type V = FormulaView;

    open spec fn view(&self) -> FormulaView {
        self.model()
    }
}

/// The text between `name` (which ends with an opening parenthesis) and a
/// final closing parenthesis, when `s` has that form.
pub open spec fn spec_strip_call(s: Seq<char>, name: Seq<char>) -> Option<Seq<char>> {
    if s.len() >= name.len() + 1 && s.take(name.len() as int) == name && s.last() == ')' {
        Some(s.subrange(name.len() as int, s.len() - 1))
    } else {
        None
    }
}

/// The rectangle that `sum(` ... `)` names: two addresses separated by the
/// first colon, the first neither right of nor below the second.
pub open spec fn spec_area(inner: Seq<char>) -> Option<CellRectangle> {
    match first_index_of(inner, ':') {
        None => None,
        Some(k) => match (
            spec_parse_cell_address(inner.take(k)),
            spec_parse_cell_address(inner.skip(k + 1)),
        ) {
            (Some(ul), Some(lr)) => if ul.column <= lr.column && ul.row <= lr.row {
                Some(CellRectangle { upper_left: ul, lower_right: lr })
            } else {
                None
            },
            _ => None,
        },
    }
}

pub open spec fn name_if() -> Seq<char> {
    seq!['i', 'f', '(']
}

pub open spec fn name_sum() -> Seq<char> {
    seq!['s', 'u', 'm', '(']
}

pub open spec fn name_indirect() -> Seq<char> {
    seq!['i', 'n', 'd', 'i', 'r', 'e', 'c', 't', '(']
}

pub open spec fn name_randbetween() -> Seq<char> {
    seq!['r', 'a', 'n', 'd', 'b', 'e', 't', 'w', 'e', 'e', 'n', '(']
}

pub open spec fn name_sequence() -> Seq<char> {
    seq!['s', 'e', 'q', 'u', 'e', 'n', 'c', 'e', '(']
}

/// The address of a cell reference `(column,row)`.
pub open spec fn spec_cell_reference(n: Seq<char>) -> Option<CellAddress> {
    match spec_strip_call(n, seq!['(']) {
        Some(inner) => spec_parse_cell_address(inner),
        None => None,
    }
}

/// The rectangle of a sum `sum(column,row:column,row)`.
pub open spec fn spec_area_sum(n: Seq<char>) -> Option<CellRectangle> {
    match spec_strip_call(n, name_sum()) {
        Some(inner) => spec_area(inner),
        None => None,
    }
}

/// The two texts of `name` `a,b)`, split at the first comma outside
/// parentheses and quotes.
pub open spec fn spec_two_arguments(n: Seq<char>, name: Seq<char>) -> Option<
    (Seq<char>, Seq<char>),
> {
    match spec_strip_call(n, name) {
        Some(inner) => match spec_split_point(inner, ',') {
            Some(k) => Some((inner.take(k), inner.skip(k + 1))),
            None => None,
        },
        None => None,
    }
}

/// The three texts of `if(a,b,c)`: the condition before the first comma
/// outside parentheses and quotes, then the rest split again in the same way.
pub open spec fn spec_if_arguments(n: Seq<char>) -> Option<(Seq<char>, Seq<char>, Seq<char>)> {
    match spec_two_arguments(n, name_if()) {
        Some((condition, remainder)) => match spec_split_point(remainder, ',') {
            Some(j) => Some((condition, remainder.take(j), remainder.skip(j + 1))),
            None => None,
        },
        None => None,
    }
}

/// The arguments of a call are shorter than the call.
pub proof fn lemma_arguments_shorter(n: Seq<char>, name: Seq<char>)
    requires
        name.len() >= 1,
    ensures
        spec_strip_call(n, name) matches Some(inner) ==> inner.len() < n.len(),
        spec_two_arguments(n, name) matches Some((a, b)) ==> a.len() < n.len() && b.len()
            < n.len(),
        name == name_if() ==> (spec_if_arguments(n) matches Some((a, b, c)) ==> a.len() < n.len()
            && b.len() < n.len() && c.len() < n.len()),
{
    if let Some(inner) = spec_strip_call(n, name) {
        lemma_split_point_in_range(inner, ',', 0, 0, false);
        if let Some(k) = spec_split_point(inner, ',') {
            lemma_split_point_in_range(inner.skip(k + 1), ',', 0, 0, false);
        }
    }
}

/// The formula that the normalized text `n` denotes; `raw` is the text kept
/// as the message when `n` is ill formed. The kinds are tried in this order:
/// number, boolean, text, cell reference, sum, conditional, indirect,
/// random number, sequence. Sub-formulas are parsed from their normalized
/// text as it stands.
pub open spec fn spec_parse_normalized(n: Seq<char>, raw: Seq<char>) -> FormulaView
    decreases n.len(),
{
    proof {
        lemma_arguments_shorter(n, name_if());
        lemma_arguments_shorter(n, name_indirect());
        lemma_arguments_shorter(n, name_randbetween());
        lemma_arguments_shorter(n, name_sequence());
    }
    if spec_is_float_literal(n) {
        FormulaView::NumberLiteral(n)
    } else if n == seq!['t', 'r', 'u', 'e'] {
        FormulaView::BooleanLiteral(true)
    } else if n == seq!['f', 'a', 'l', 's', 'e'] {
        FormulaView::BooleanLiteral(false)
    } else if n.len() >= 2 && n[0] == '"' && n.last() == '"' {
        FormulaView::TextLiteral(n.subrange(1, n.len() - 1))
    } else if let Some(address) = spec_cell_reference(n) {
        FormulaView::CellReference(address)
    } else if let Some(area) = spec_area_sum(n) {
        FormulaView::AreaSum(area)
    } else if let Some((c, t, f)) = spec_if_arguments(n) {
        FormulaView::Conditional(
            Box::new(spec_parse_normalized(c, c)),
            Box::new(spec_parse_normalized(t, t)),
            Box::new(spec_parse_normalized(f, f)),
        )
    } else if let Some(inner) = spec_strip_call(n, name_indirect()) {
        FormulaView::Indirect(Box::new(spec_parse_normalized(inner, inner)))
    } else if let Some((l, u)) = spec_two_arguments(n, name_randbetween()) {
        FormulaView::RandBetween(
            Box::new(spec_parse_normalized(l, l)),
            Box::new(spec_parse_normalized(u, u)),
        )
    } else if let Some((r, c)) = spec_two_arguments(n, name_sequence()) {
        FormulaView::Sequence(
            Box::new(spec_parse_normalized(r, r)),
            Box::new(spec_parse_normalized(c, c)),
        )
    } else {
        FormulaView::IllFormed(raw)
    }
}

/// Whether every rectangle that a formula sums over is well formed.
pub open spec fn rectangles_well_formed(f: FormulaView) -> bool
    decreases f,
{
    match f {
        FormulaView::AreaSum(r) => r.well_formed(),
        FormulaView::Conditional(c, t, e) => rectangles_well_formed(*c) && rectangles_well_formed(
            *t,
        ) && rectangles_well_formed(*e),
        FormulaView::Indirect(r) => rectangles_well_formed(*r),
        FormulaView::RandBetween(l, u) => rectangles_well_formed(*l) && rectangles_well_formed(*u),
        FormulaView::Sequence(r, c) => rectangles_well_formed(*r) && rectangles_well_formed(*c),
        _ => true,
    }
}

/// Parsing only ever yields well-formed rectangles.
pub proof fn lemma_parsed_rectangles_well_formed(n: Seq<char>, raw: Seq<char>)
    ensures
        rectangles_well_formed(spec_parse_normalized(n, raw)),
    decreases n.len(),
{
    lemma_arguments_shorter(n, name_if());
    lemma_arguments_shorter(n, name_indirect());
    lemma_arguments_shorter(n, name_randbetween());
    lemma_arguments_shorter(n, name_sequence());
    if let Some((c, t, f)) = spec_if_arguments(n) {
        lemma_parsed_rectangles_well_formed(c, c);
        lemma_parsed_rectangles_well_formed(t, t);
        lemma_parsed_rectangles_well_formed(f, f);
    }
    if let Some(inner) = spec_strip_call(n, name_indirect()) {
        lemma_parsed_rectangles_well_formed(inner, inner);
    }
    if let Some((l, u)) = spec_two_arguments(n, name_randbetween()) {
        lemma_parsed_rectangles_well_formed(l, l);
        lemma_parsed_rectangles_well_formed(u, u);
    }
    if let Some((r, c)) = spec_two_arguments(n, name_sequence()) {
        lemma_parsed_rectangles_well_formed(r, r);
        lemma_parsed_rectangles_well_formed(c, c);
    }
}

/// Whether a formula must be evaluated again after every change of the
/// spreadsheet: a random number makes it so, wherever it occurs.
pub open spec fn spec_is_volatile(f: FormulaView) -> bool
    decreases f,
{
    match f {
        FormulaView::Conditional(c, t, e) => spec_is_volatile(*c) || spec_is_volatile(*t)
            || spec_is_volatile(*e),
        FormulaView::Indirect(r) => spec_is_volatile(*r),
        FormulaView::Sequence(r, c) => spec_is_volatile(*r) || spec_is_volatile(*c),
        FormulaView::RandBetween(_, _) => true,
        _ => false,
    }
}

impl Formula {
    /// Whether the formula must be evaluated again after every change of the
    /// spreadsheet (see [`spec_is_volatile`]).
    pub fn is_volatile(&self) -> (volatile: bool)
        ensures
            volatile == spec_is_volatile(self@),
        decreases self,
    {
        match self {
            Formula::Conditional(c, t, e) => c.is_volatile() || t.is_volatile() || e.is_volatile(),
            Formula::Indirect(r) => r.is_volatile(),
            Formula::Sequence(r, c) => r.is_volatile() || c.is_volatile(),
            Formula::RandBetween(_, _) => true,
            _ => false,
        }
    }
}

/// The formula that a raw formula text denotes.
pub open spec fn spec_parse(raw: Seq<char>) -> FormulaView {
    spec_parse_normalized(spec_normalize(raw), raw)
}

/// A normalized text that is `true` or `false` is that boolean literal, and
/// one between double quotes (that is not a boolean) is the text between
/// them: these kinds come right after numbers, and no such text is a number.
pub proof fn lemma_literals_parse_as_literals(n: Seq<char>, raw: Seq<char>)
    ensures
        n == seq!['t', 'r', 'u', 'e'] ==> spec_parse_normalized(n, raw) == FormulaView::BooleanLiteral(true),
        n == seq!['f', 'a', 'l', 's', 'e'] ==> spec_parse_normalized(n, raw) == FormulaView::BooleanLiteral(
            false,
        ),
        n.len() >= 2 && n[0] == '"' && n.last() == '"' ==> spec_parse_normalized(n, raw)
            == FormulaView::TextLiteral(n.subrange(1, n.len() - 1)),
{
    if n == seq!['t', 'r', 'u', 'e'] || n == seq!['f', 'a', 'l', 's', 'e'] || (n.len() >= 2 && n[0] == '"'
        && n.last() == '"') {
        assert(crate::text::digit_run_end(n, 0) == 0);
        assert(!crate::text::is_decimal_number(n));
        assert(!crate::text::equals_ignoring_ascii_case(n, seq!['i', 'n', 'f'])) by {
            if n.len() == 3 {
                assert(crate::text::ascii_lower(n[0]) != 'i' as u32);
            }
        }
        assert(!crate::text::equals_ignoring_ascii_case(n, seq!['n', 'a', 'n'])) by {
            if n.len() == 3 {
                assert(crate::text::ascii_lower(n[0]) != 'n' as u32);
            }
        }
        assert(!crate::text::equals_ignoring_ascii_case(n, seq!['i', 'n', 'f', 'i', 'n', 'i', 't', 'y'])) by {
            if n.len() == 8 {
                assert(crate::text::ascii_lower(n[0]) != 'i' as u32);
            }
        }
        assert(!spec_is_float_literal(n));
    }
}

/// A formula whose normalized text is a number that `f64::from_str`
/// accepts is that number literal, whatever else the text could be read as:
/// numbers are tried before every other kind of formula.
pub proof fn lemma_numbers_parse_as_numbers(raw: Seq<char>)
    requires
        spec_is_float_literal(spec_normalize(raw)),
    ensures
        spec_parse(raw) == FormulaView::NumberLiteral(spec_normalize(raw)),
        forall|n: Seq<char>, r: Seq<char>|
            spec_is_float_literal(n) ==> #[trigger] spec_parse_normalized(n, r)
                == FormulaView::NumberLiteral(n),
{
}

/// Whether `s` begins with `prefix`.
fn starts_with(s: &[char], prefix: &[char]) -> (result: bool)
    ensures
        result == (s@.len() >= prefix@.len() && s@.take(prefix@.len() as int) == prefix@),
{
    if s.len() < prefix.len() {
        return false;
    }
    let mut i: usize = 0;
    while i < prefix.len()
        invariant
            i <= prefix.len() <= s.len(),
            forall|j: int| 0 <= j < i ==> s@[j] == prefix@[j],
        decreases prefix.len() - i,
    {
        if s[i] != prefix[i] {
            assert(s@.take(prefix@.len() as int)[i as int] != prefix@[i as int]);
            return false;
        }
        i += 1;
    }
    assert(s@.take(prefix@.len() as int) =~= prefix@);
    true
}

/// The text between `name` and a final closing parenthesis (see
/// [`spec_strip_call`]).
fn strip_call<'a>(s: &'a [char], name: &[char]) -> (result: Option<&'a [char]>)
    ensures
        match spec_strip_call(s@, name@) {
            Some(inner) => result matches Some(r) && r@ == inner,
            None => result is None,
        },
{
    if s.len() > name.len() && starts_with(s, name) && s[s.len() - 1] == ')' {
        Some(&s[name.len()..s.len() - 1])
    } else {
        None
    }
}

/// The position of the first `c` in `s`, if any.
pub fn find_char(s: &[char], c: char) -> (result: Option<usize>)
    ensures
        match first_index_of(s@, c) {
            Some(k) => result == Some(k as usize) && 0 <= k < s@.len(),
            None => result is None,
        },
        result matches Some(k) ==> k < s@.len(),
{
    let mut i: usize = 0;
    while i < s.len()
        invariant
            i <= s.len(),
            forall|j: int| 0 <= j < i ==> s@[j] != c,
        decreases s.len() - i,
    {
        if s[i] == c {
            let ghost k = first_index_of(s@, c)->0;
            assert(k == i) by {
                assert(s@[i as int] == c);
            }
            return Some(i);
        }
        i += 1;
    }
    None
}

/// The rectangle that the text inside `sum(` ... `)` names (see
/// [`spec_area`]).
fn parse_area(inner: &[char]) -> (result: Option<CellRectangle>)
    ensures
        result == spec_area(inner@),
{
    match find_char(inner, ':') {
        None => None,
        Some(k) => {
            let len = inner.len();
            assert(k < len);
            let left = &inner[0..k];
            let right = &inner[k + 1..len];
            assert(left@ == inner@.take(k as int));
            assert(right@ == inner@.skip(k + 1));
            match (parse_cell_address(left), parse_cell_address(right)) {
                (Some(ul), Some(lr)) => CellRectangle::new(ul, lr),
                _ => None,
            }
        },
    }
}

/// The address of a cell reference (see [`spec_cell_reference`]).
fn cell_reference(n: &[char]) -> (result: Option<CellAddress>)
    ensures
        result == spec_cell_reference(n@),
{
    let open = ['('];
    assert(open@ == seq!['(']);
    match strip_call(n, open.as_slice()) {
        Some(inner) => parse_cell_address(inner),
        None => None,
    }
}

/// The rectangle of a sum (see [`spec_area_sum`]).
fn area_sum(n: &[char]) -> (result: Option<CellRectangle>)
    ensures
        result == spec_area_sum(n@),
{
    let sum = ['s', 'u', 'm', '('];
    assert(sum@ == name_sum());
    match strip_call(n, sum.as_slice()) {
        Some(inner) => parse_area(inner),
        None => None,
    }
}

/// The two arguments of a call (see [`spec_two_arguments`]).
fn two_arguments<'a>(n: &'a [char], name: &[char]) -> (result: Option<(&'a [char], &'a [char])>)
    ensures
        match spec_two_arguments(n@, name@) {
            Some((a, b)) => result matches Some((x, y)) && x@ == a && y@ == b,
            None => result is None,
        },
{
    match strip_call(n, name) {
        Some(inner) => split_once_outside_parentheses(inner, ','),
        None => None,
    }
}

/// The three arguments of a conditional (see [`spec_if_arguments`]).
fn if_arguments<'a>(n: &'a [char]) -> (result: Option<(&'a [char], &'a [char], &'a [char])>)
    ensures
        match spec_if_arguments(n@) {
            Some((a, b, c)) => result matches Some((x, y, z)) && x@ == a && y@ == b && z@ == c,
            None => result is None,
        },
{
    let if_name = ['i', 'f', '('];
    assert(if_name@ == name_if());
    match two_arguments(n, if_name.as_slice()) {
        Some((condition, remainder)) => match split_once_outside_parentheses(remainder, ',') {
            Some((when_true, when_false)) => Some((condition, when_true, when_false)),
            None => None,
        },
        None => None,
    }
}

/// Whether `n` is exactly `word`.
fn is_word(n: &[char], word: &[char]) -> (result: bool)
    ensures
        result == (n@ == word@),
{
    let result = n.len() == word.len() && starts_with(n, word);
    proof {
        if n@.len() == word@.len() {
            assert(n@.take(word@.len() as int) =~= n@);
        }
    }
    result
}

/// Parses normalized formula text (see [`spec_parse_normalized`]); `raw` is
/// kept as the message when the text is ill formed.
#[verifier::rlimit(60)]
pub fn parse_normalized(n: &[char], raw: &[char]) -> (formula: Formula)
    ensures
        formula@ == spec_parse_normalized(n@, raw@),
    decreases n@.len(),
{
    let true_text = ['t', 'r', 'u', 'e'];
    let false_text = ['f', 'a', 'l', 's', 'e'];
    let indirect = ['i', 'n', 'd', 'i', 'r', 'e', 'c', 't', '('];
    let randbetween = ['r', 'a', 'n', 'd', 'b', 'e', 't', 'w', 'e', 'e', 'n', '('];
    let sequence = ['s', 'e', 'q', 'u', 'e', 'n', 'c', 'e', '('];
    assert(true_text@ == seq!['t', 'r', 'u', 'e']);
    assert(false_text@ == seq!['f', 'a', 'l', 's', 'e']);
    assert(indirect@ == name_indirect());
    assert(randbetween@ == name_randbetween());
    assert(sequence@ == name_sequence());
    proof {
        lemma_arguments_shorter(n@, name_if());
        lemma_arguments_shorter(n@, name_indirect());
        lemma_arguments_shorter(n@, name_randbetween());
        lemma_arguments_shorter(n@, name_sequence());
    }
    if is_float_literal(n) {
        Formula::NumberLiteral(string_from_chars(n))
    } else if is_word(n, true_text.as_slice()) {
        Formula::BooleanLiteral(true)
    } else if is_word(n, false_text.as_slice()) {
        Formula::BooleanLiteral(false)
    } else if n.len() >= 2 && n[0] == '"' && n[n.len() - 1] == '"' {
        Formula::TextLiteral(string_from_chars(&n[1..n.len() - 1]))
    } else if let Some(address) = cell_reference(n) {
        Formula::CellReference(address)
    } else if let Some(area) = area_sum(n) {
        Formula::AreaSum(area)
    } else if let Some((c, t, f)) = if_arguments(n) {
        let condition = parse_normalized(c, c);
        let when_true = parse_normalized(t, t);
        let when_false = parse_normalized(f, f);
        Formula::Conditional(Box::new(condition), Box::new(when_true), Box::new(when_false))
    } else if let Some(inner) = strip_call(n, indirect.as_slice()) {
        Formula::Indirect(Box::new(parse_normalized(inner, inner)))
    } else if let Some((l, u)) = two_arguments(n, randbetween.as_slice()) {
        let lower = parse_normalized(l, l);
        let upper = parse_normalized(u, u);
        Formula::RandBetween(Box::new(lower), Box::new(upper))
    } else if let Some((r, c)) = two_arguments(n, sequence.as_slice()) {
        let rows = parse_normalized(r, r);
        let columns = parse_normalized(c, c);
        Formula::Sequence(Box::new(rows), Box::new(columns))
    } else {
        Formula::IllFormed(string_from_chars(raw))
    }
}

/// Parses a raw formula: normalizes it, then reads it as a number, a
/// boolean, a text, a cell reference, a sum, a conditional, an indirect
/// reference, a random number or a sequence, in this order; text that is none
/// of these becomes an ill-formed formula whose message is the raw text.
pub fn parse(raw_formula: &str) -> (formula: Formula)
    ensures
        formula@ == spec_parse(raw_formula@),
        rectangles_well_formed(formula@),
        spec_is_float_literal(spec_normalize(raw_formula@)) ==> formula@ == FormulaView::NumberLiteral(
            spec_normalize(raw_formula@),
        ),
{
    proof {
        lemma_parsed_rectangles_well_formed(spec_normalize(raw_formula@), raw_formula@);
        if spec_is_float_literal(spec_normalize(raw_formula@)) {
            lemma_numbers_parse_as_numbers(raw_formula@);
        }
    }
    let raw = chars_of(raw_formula);
    let normalized = normalize_chars(raw.as_slice());
    parse_normalized(normalized.as_slice(), raw.as_slice())
}

} // verus!
