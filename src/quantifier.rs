use vstd::prelude::*;

use crate::error::{outcome, Error, ErrorKind, ParseResult};
use crate::text::{
    chars_of, decimal, digits_value, is_decimal_digit, lemma_decimal_value, lemma_digits_value_prefix,
    push_decimal,
};

verus! {

/// How many times the atom before a quantifier may occur.
#[derive(Debug, Clone, Copy, PartialEq, Eq, Structural)]
pub enum Quantifier {
    /// Exactly once: no quantifier was written.
    Single,
    /// `n` or more times.
    AtLeast(usize),
    /// Zero up to `n` times.
    AtMost(usize),
    /// Between the two bounds, inclusive; the bounds are not checked for order.
    Range(usize, usize),
}

/// The characters `char::is_whitespace` accepts: Unicode's White_Space set.
pub open spec fn is_white_space(c: char) -> bool {
    let v = c as u32;
    ||| 0x09 <= v <= 0x0D
    ||| v == 0x20
    ||| v == 0x85
    ||| v == 0xA0
    ||| v == 0x1680
    ||| 0x2000 <= v <= 0x200A
    ||| v == 0x2028
    ||| v == 0x2029
    ||| v == 0x202F
    ||| v == 0x205F
    ||| v == 0x3000
}

/// `s` without its leading white space.
pub open spec fn trim_start(s: Seq<char>) -> Seq<char>
    decreases s.len(),
{
    if s.len() > 0 && is_white_space(s[0]) {
        trim_start(s.drop_first())
    } else {
        s
    }
}

/// `s` without its trailing white space.
pub open spec fn trim_end(s: Seq<char>) -> Seq<char>
    decreases s.len(),
{
    if s.len() > 0 && is_white_space(s.last()) {
        trim_end(s.drop_last())
    } else {
        s
    }
}

/// `s` without white space at either end.
pub open spec fn trim(s: Seq<char>) -> Seq<char> {
    trim_end(trim_start(s))
}

pub open spec fn is_brace(c: char) -> bool {
    c == '{' || c == '}'
}

/// `s` with every `{` and `}` left out.
pub open spec fn without_braces(s: Seq<char>) -> Seq<char>
    decreases s.len(),
{
    if s.len() == 0 {
        s
    } else if is_brace(s.last()) {
        without_braces(s.drop_last())
    } else {
        without_braces(s.drop_last()).push(s.last())
    }
}

/// The pieces of `s` between commas: one more piece than `s` has commas.
pub open spec fn split_commas(s: Seq<char>) -> Seq<Seq<char>>
    decreases s.len(),
{
    if s.len() == 0 {
        seq![Seq::empty()]
    } else {
        let pieces = split_commas(s.drop_last());
        if s.last() == ',' {
            pieces.push(Seq::empty())
        } else {
            pieces.update(pieces.len() - 1, pieces.last().push(s.last()))
        }
    }
}

/// The decimal digits of an unsigned integer's text, after an optional `+`.
pub open spec fn unsigned_digits(s: Seq<char>) -> Seq<char> {
    if s.len() > 0 && s[0] == '+' {
        s.drop_first()
    } else {
        s
    }
}

/// The value `usize::from_str` reads from `s`: an optional `+`, then one or
/// more decimal digits whose value fits a `usize`.
pub open spec fn parse_unsigned(s: Seq<char>) -> Option<usize> {
    let d = unsigned_digits(s);
    if d.len() > 0 && (forall|i: int| 0 <= i < d.len() ==> is_decimal_digit(#[trigger] d[i]))
        && digits_value(d) <= usize::MAX {
        Some(digits_value(d) as usize)
    } else {
        None
    }
}

/// A count field once its braces and surrounding white space are gone: empty,
/// an unsigned integer, or not a count at all.
pub open spec fn count_of(t: Seq<char>) -> Result<Option<usize>, ErrorKind> {
    if t.len() == 0 {
        Ok(None)
    } else {
        match parse_unsigned(t) {
            Some(n) => Ok(Some(n)),
            None => Err(ErrorKind::InvalidSyntax),
        }
    }
}

/// What one comma-separated piece of a brace expression reads as.
pub open spec fn field_of(piece: Seq<char>) -> Result<Option<usize>, ErrorKind> {
    count_of(trim(without_braces(piece)))
}

/// The value a well-formed field stands for; `None` for one that is not.
pub open spec fn field_value(piece: Seq<char>) -> Option<usize> {
    match field_of(piece) {
        Ok(v) => v,
        Err(_) => None,
    }
}

/// The quantifier given by its two bounds, of which at least one is needed.
pub open spec fn ranged_of(start: Option<usize>, end: Option<usize>) -> Result<Quantifier, ErrorKind> {
    match (start, end) {
        (Some(a), None) => Ok(Quantifier::AtLeast(a)),
        (None, Some(b)) => Ok(Quantifier::AtMost(b)),
        (Some(a), Some(b)) => Ok(Quantifier::Range(a, b)),
        (None, None) => Err(ErrorKind::InvalidQuantifier),
    }
}

/// The quantifier given by the fields of a brace expression: two fields are
/// the lower and upper bound, a single field is a lower bound.
pub open spec fn bounds_of(fields: Seq<Option<usize>>) -> Result<Quantifier, ErrorKind> {
    if fields.len() == 2 {
        ranged_of(fields[0], fields[1])
    } else if fields.len() == 1 {
        match fields[0] {
            Some(a) => Ok(Quantifier::AtLeast(a)),
            None => Err(ErrorKind::InvalidQuantifier),
        }
    } else {
        Err(ErrorKind::InvalidQuantifier)
    }
}

/// What a brace expression reads as, given what follows its `{`.
pub open spec fn braced_of(rest: Seq<char>) -> Result<Quantifier, ErrorKind> {
    let pieces = split_commas(rest);
    if exists|i: int| 0 <= i < pieces.len() && (#[trigger] field_of(pieces[i])) is Err {
        Err(ErrorKind::InvalidSyntax)
    } else {
        bounds_of(pieces.map_values(|p: Seq<char>| field_value(p)))
    }
}

/// What a quantifier that is not a brace expression reads as, from its first
/// character alone.
pub open spec fn single_of(first: Option<char>) -> Result<Quantifier, ErrorKind> {
    match first {
        None => Ok(Quantifier::Single),
        Some(c) => if c == '?' {
            Ok(Quantifier::AtMost(1))
        } else if c == '*' {
            Ok(Quantifier::AtLeast(0))
        } else if c == '+' {
            Ok(Quantifier::AtLeast(1))
        } else {
            Err(ErrorKind::InvalidSyntax)
        },
    }
}

/// What the quantifier suffix `s` reads as.
pub open spec fn quantifier_of(s: Seq<char>) -> Result<Quantifier, ErrorKind> {
    if s.len() == 0 {
        single_of(None)
    } else if s[0] == '{' {
        braced_of(s.drop_first())
    } else {
        single_of(Some(s[0]))
    }
}

pub open spec fn unknown_character_message(c: char) -> Seq<char> {
    "Could not determine quantifier type from supplied character '"@.push(c).push('\'')
}

pub open spec fn empty_integer_message() -> Seq<char> {
    "cannot parse integer from empty string"@
}

pub open spec fn invalid_digit_message() -> Seq<char> {
    "invalid digit found in string"@
}

pub open spec fn too_large_message() -> Seq<char> {
    "number too large to fit in target type"@
}

/// Reading the digits `d` from the left passes `usize::MAX` before it meets
/// a character that is not a digit.
pub open spec fn overflows_first(d: Seq<char>) -> bool {
    exists|k: int|
        0 < k <= d.len() && (forall|j: int| 0 <= j < k ==> is_decimal_digit(#[trigger] d[j]))
            && #[trigger] digits_value(d.take(k)) > usize::MAX
}

/// The text of the error `usize::from_str` gives on `s`, where it fails:
/// the first problem met reading from the left.
pub open spec fn unsigned_error_message(s: Seq<char>) -> Seq<char> {
    if s.len() == 0 {
        empty_integer_message()
    } else if overflows_first(unsigned_digits(s)) {
        too_large_message()
    } else {
        invalid_digit_message()
    }
}

/// The message when a piece of a brace expression is not a count.
pub open spec fn field_message(piece: Seq<char>) -> Seq<char> {
    unsigned_error_message(trim(without_braces(piece)))
}

pub open spec fn two_empty_fields_message() -> Seq<char> {
    "Cannot create ranged quantifier with two empty fields."@
}

pub open spec fn empty_field_message() -> Seq<char> {
    "Cannot create a ranged quantifier with an empty field."@
}

/// The message for a brace expression with `k` fields, too many.
pub open spec fn field_count_message(k: nat) -> Seq<char> {
    "Cannot create a ranged quantifier with "@ + decimal(k) + " fields."@
}

/// Piece `i` is the first of `pieces` that is not a count.
pub open spec fn is_first_bad_field(pieces: Seq<Seq<char>>, i: int) -> bool {
    &&& 0 <= i < pieces.len()
    &&& field_of(pieces[i]) is Err
    &&& forall|j: int| 0 <= j < i ==> (#[trigger] field_of(pieces[j])) is Ok
}

/// The message of the failure in reading what follows the `{` of a brace
/// expression, where it fails.
pub open spec fn braced_message(rest: Seq<char>) -> Seq<char> {
    let pieces = split_commas(rest);
    if exists|i: int| is_first_bad_field(pieces, i) {
        field_message(pieces[choose|i: int| is_first_bad_field(pieces, i)])
    } else if pieces.len() == 2 {
        two_empty_fields_message()
    } else if pieces.len() == 1 {
        empty_field_message()
    } else {
        field_count_message(pieces.len())
    }
}

/// The message of the failure in reading the quantifier suffix `s`, where
/// it fails.
pub open spec fn quantifier_message(s: Seq<char>) -> Seq<char> {
    if s.len() == 0 {
        Seq::empty()
    } else if s[0] == '{' {
        braced_message(s.drop_first())
    } else {
        unknown_character_message(s[0])
    }
}

/// The canonical text of a quantifier: empty for `Single`, otherwise a
/// brace expression with the bounds in decimal.
pub open spec fn quantifier_text(q: Quantifier) -> Seq<char> {
    match q {
        Quantifier::Single => Seq::empty(),
        Quantifier::AtLeast(n) => seq!['{'] + decimal(n as nat) + seq![',', '}'],
        Quantifier::AtMost(n) => seq!['{', ','] + decimal(n as nat) + seq!['}'],
        Quantifier::Range(a, b) => seq!['{'] + decimal(a as nat) + seq![','] + decimal(b as nat) + seq!['}'],
    }
}

/// Reading the canonical text of a quantifier gives the quantifier back.
pub proof fn lemma_quantifier_text_round_trip(q: Quantifier)
    ensures
        quantifier_of(quantifier_text(q)) == Ok::<_, ErrorKind>(q),
{
    let t = quantifier_text(q);
    let empty = Seq::<char>::empty();
    let close = seq!['}'];
    lemma_field_of_close();
    match q {
        Quantifier::Single => {},
        Quantifier::AtLeast(n) => {
            let d = decimal(n as nat);
            lemma_field_of_decimal(n);
            assert(t.drop_first() =~= d.push(',') + close);
            lemma_split_no_comma(empty, d);
            assert(empty + d =~= d);
            assert(split_commas(empty) =~= seq![empty]);
            assert(split_commas(d) =~= seq![d]);
            assert(d.push(',').drop_last() =~= d);
            assert(split_commas(d.push(',')) =~= seq![d, empty]);
            assert(empty + close =~= close);
            lemma_split_no_comma(d.push(','), close);
            let pieces = split_commas(t.drop_first());
            assert(pieces =~= seq![d, close]);
            assert(!exists|i: int| 0 <= i < pieces.len() && (#[trigger] field_of(pieces[i])) is Err) by {
                assert forall|i: int| 0 <= i < pieces.len() implies !((#[trigger] field_of(pieces[i])) is Err) by {
                    if i == 0 { assert(pieces[i] == d); } else { assert(pieces[i] == close); }
                }
            }
            assert(pieces.map_values(|p: Seq<char>| field_value(p)) =~= seq![Some(n), None]);
        },
        Quantifier::AtMost(n) => {
            let d = decimal(n as nat);
            lemma_field_of_decimal(n);
            assert(t.drop_first() =~= empty.push(',') + d.push('}'));
            assert(split_commas(empty) =~= seq![empty]);
            assert(empty.push(',').drop_last() =~= empty);
            assert(split_commas(empty.push(',')) =~= seq![empty, empty]);
            lemma_split_no_comma(empty.push(','), d.push('}'));
            let pieces = split_commas(t.drop_first());
            assert(empty + d.push('}') =~= d.push('}'));
            assert(pieces =~= seq![empty, d.push('}')]);
            assert(!exists|i: int| 0 <= i < pieces.len() && (#[trigger] field_of(pieces[i])) is Err) by {
                assert forall|i: int| 0 <= i < pieces.len() implies !((#[trigger] field_of(pieces[i])) is Err) by {
                    if i == 0 { assert(pieces[i] == empty); } else { assert(pieces[i] == d.push('}')); }
                }
            }
            assert(pieces.map_values(|p: Seq<char>| field_value(p)) =~= seq![None, Some(n)]);
        },
        Quantifier::Range(a, b) => {
            let da = decimal(a as nat);
            let db = decimal(b as nat);
            lemma_field_of_decimal(a);
            lemma_field_of_decimal(b);
            assert(t.drop_first() =~= da.push(',') + db.push('}'));
            lemma_split_no_comma(empty, da);
            assert(empty + da =~= da);
            assert(split_commas(empty) =~= seq![empty]);
            assert(split_commas(da) =~= seq![da]);
            assert(da.push(',').drop_last() =~= da);
            assert(split_commas(da.push(',')) =~= seq![da, empty]);
            lemma_split_no_comma(da.push(','), db.push('}'));
            let pieces = split_commas(t.drop_first());
            assert(empty + db.push('}') =~= db.push('}'));
            assert(pieces =~= seq![da, db.push('}')]);
            assert(!exists|i: int| 0 <= i < pieces.len() && (#[trigger] field_of(pieces[i])) is Err) by {
                assert forall|i: int| 0 <= i < pieces.len() implies !((#[trigger] field_of(pieces[i])) is Err) by {
                    if i == 0 { assert(pieces[i] == da); } else { assert(pieces[i] == db.push('}')); }
                }
            }
            assert(pieces.map_values(|p: Seq<char>| field_value(p)) =~= seq![Some(a), Some(b)]);
        },
    }
}

pub open spec fn has_comma(s: Seq<char>) -> bool {
    exists|i: int| 0 <= i < s.len() && s[i] == ','
}

/// Text without a comma only lengthens the last piece.
proof fn lemma_split_no_comma(a: Seq<char>, b: Seq<char>)
    requires
        !has_comma(b),
    ensures
        split_commas(a + b) == split_commas(a).update(
            split_commas(a).len() - 1,
            split_commas(a).last() + b,
        ),
    decreases b.len(),
{
    lemma_split_commas_nonempty(a);
    let pa = split_commas(a);
    if b.len() == 0 {
        assert(a + b =~= a);
        assert(pa.last() + b =~= pa.last());
        assert(pa.update(pa.len() - 1, pa.last()) =~= pa);
    } else {
        let c = b.last();
        assert(!has_comma(b.drop_last())) by {
            if has_comma(b.drop_last()) {
                let i = choose|i: int| 0 <= i < b.drop_last().len() && b.drop_last()[i] == ',';
                assert(b[i] == ',');
            }
        }
        assert(b[b.len() - 1] != ',');
        lemma_split_no_comma(a, b.drop_last());
        assert((a + b).drop_last() =~= a + b.drop_last());
        assert((pa.last() + b.drop_last()).push(c) =~= pa.last() + b);
        assert(split_commas(a + b) =~= pa.update(pa.len() - 1, pa.last() + b));
    }
}

proof fn lemma_field_of_close()
    ensures
        !has_comma(seq!['}']),
        field_of(seq!['}']) == Ok::<Option<usize>, ErrorKind>(None),
        field_of(Seq::empty()) == Ok::<Option<usize>, ErrorKind>(None),
{
    let close = seq!['}'];
    assert(close.drop_last() =~= Seq::<char>::empty());
    assert(!has_comma(close)) by {
        if has_comma(close) {
            let i = choose|i: int| 0 <= i < close.len() && close[i] == ',';
            assert(i == 0);
        }
    }
    assert(without_braces(close) =~= Seq::<char>::empty());
}

/// The decimal text of a count reads back as that count.
proof fn lemma_field_of_decimal(n: usize)
    ensures
        field_of(decimal(n as nat)) == Ok::<_, ErrorKind>(Some(n)),
        field_of(decimal(n as nat).push('}')) == Ok::<_, ErrorKind>(Some(n)),
        !has_comma(decimal(n as nat)),
        !has_comma(decimal(n as nat).push('}')),
{
    let d = decimal(n as nat);
    lemma_decimal_value(n as nat);
    lemma_digits_without_braces(d);
    assert(d.push('}').drop_last() =~= d);
    assert(trim_start(d) == d);
    assert(trim_end(d) == d);
    assert(unsigned_digits(d) == d);
    assert(!has_comma(d.push('}'))) by {
        if has_comma(d.push('}')) {
            let i = choose|i: int| 0 <= i < d.push('}').len() && d.push('}')[i] == ',';
            if i < d.len() {
                assert(d[i] == d.push('}')[i]);
            }
        }
    }
}

/// A string of digits has no braces to leave out.
proof fn lemma_digits_without_braces(s: Seq<char>)
    requires
        forall|i: int| 0 <= i < s.len() ==> is_decimal_digit(#[trigger] s[i]),
    ensures
        without_braces(s) == s,
    decreases s.len(),
{
    if s.len() > 0 {
        assert(is_decimal_digit(s[s.len() - 1]));
        let p = s.drop_last();
        assert forall|i: int| 0 <= i < p.len() implies is_decimal_digit(#[trigger] p[i]) by {
            assert(p[i] == s[i]);
        }
        lemma_digits_without_braces(p);
        assert(p.push(s.last()) =~= s);
    }
}

proof fn lemma_split_commas_nonempty(s: Seq<char>)
    ensures
        split_commas(s).len() >= 1,
    decreases s.len(),
{
    if s.len() > 0 {
        lemma_split_commas_nonempty(s.drop_last());
    }
}

fn is_white_space_char(c: char) -> (r: bool)
    ensures
        r == is_white_space(c),
{
    let v = c as u32;
    (0x09 <= v && v <= 0x0D) || v == 0x20 || v == 0x85 || v == 0xA0 || v == 0x1680
        || (0x2000 <= v && v <= 0x200A) || v == 0x2028 || v == 0x2029 || v == 0x202F
        || v == 0x205F || v == 0x3000
}

/// A copy of `s` without white space at either end.
fn trimmed(s: &Vec<char>) -> (r: Vec<char>)
    ensures
        r@ == trim(s@),
{
    let len = s.len();
    let mut a: usize = 0;
    assert(s@.subrange(0, len as int) =~= s@);
    while a < len && is_white_space_char(s[a])
        invariant
            a <= len == s@.len(),
            trim_start(s@) == trim_start(s@.subrange(a as int, len as int)),
        decreases len - a,
    {
        assert(s@.subrange(a as int, len as int).drop_first() =~= s@.subrange(a + 1, len as int));
        a += 1;
    }
    assert(trim_start(s@) == s@.subrange(a as int, len as int));
    let mut b: usize = len;
    while b > a && is_white_space_char(s[b - 1])
        invariant
            a <= b <= len == s@.len(),
            trim(s@) == trim_end(s@.subrange(a as int, b as int)),
        decreases b,
    {
        assert(s@.subrange(a as int, b as int).drop_last() =~= s@.subrange(a as int, b - 1));
        b -= 1;
    }
    let mut r: Vec<char> = Vec::new();
    let mut i: usize = a;
    while i < b
        invariant
            a <= i <= b <= s@.len(),
            r@ == s@.subrange(a as int, i as int),
        decreases b - i,
    {
        r.push(s[i]);
        assert(r@ =~= s@.subrange(a as int, i + 1));
        i += 1;
    }
    r
}

impl Quantifier {
    /// Reads a quantifier suffix: empty, `?`, `*`, `+`, or a brace count
    /// expression such as `{2,5}`, `{2,}`, `{,5}` or `{2}`.
    pub fn parse(input: &str) -> (r: ParseResult<Quantifier>)
        ensures
            outcome(r) == quantifier_of(input@),
            r is Err ==> r->Err_0.spec_message() == quantifier_message(input@),
    {
        let mut characters = chars_of(input);
        if characters.len() == 0 {
            return Self::parse_single_character(&None);
        }
        let first_character = characters.remove(0);
        if first_character == '{' {
            Self::parse_quantifier_range(&characters)
        } else {
            Self::parse_single_character(&Some(first_character))
        }
    }

    /// The canonical text of this quantifier, which `parse` reads back as
    /// this quantifier.
    pub fn to_pattern(&self) -> (r: String)
        ensures
            r@ == quantifier_text(*self),
    {
        let mut r = String::new();
        match *self {
            Quantifier::Single => {},
            Quantifier::AtLeast(n) => {
                r.push('{');
                push_decimal(&mut r, n);
                r.push(',');
                r.push('}');
            },
            Quantifier::AtMost(n) => {
                r.push('{');
                r.push(',');
                push_decimal(&mut r, n);
                r.push('}');
            },
            Quantifier::Range(a, b) => {
                r.push('{');
                push_decimal(&mut r, a);
                r.push(',');
                push_decimal(&mut r, b);
                r.push('}');
            },
        }
        assert(r@ =~= quantifier_text(*self));
        r
    }

    fn parse_single_character(input: &Option<char>) -> (r: ParseResult<Quantifier>)
        ensures
            outcome(r) == single_of(*input),
            r is Err ==> r->Err_0.spec_message() == unknown_character_message(input->Some_0),
    {
        match input {
            None => Ok(Quantifier::Single),
            Some(c) => {
                let c = *c;
                if c == '?' {
                    Ok(Quantifier::AtMost(1))
                } else if c == '*' {
                    Ok(Quantifier::AtLeast(0))
                } else if c == '+' {
                    Ok(Quantifier::AtLeast(1))
                } else {
                    let mut msg = "Could not determine quantifier type from supplied character '".to_owned();
                    msg.push(c);
                    msg.push('\'');
                    Err(Error::with_message(ErrorKind::InvalidSyntax, msg))
                }
            },
        }
    }

    /// Reads what follows the `{` of a brace count expression.
    fn parse_quantifier_range(input: &Vec<char>) -> (r: ParseResult<Quantifier>)
        ensures
            outcome(r) == braced_of(input@),
            r is Err ==> r->Err_0.spec_message() == braced_message(input@),
    {
        let components = Self::split_range_components(input);
        let ghost pieces = split_commas(input@);
        let ghost parsed = components@;
        let range_elements = match Self::collect_parse_errors(components) {
            Ok(v) => v,
            Err(e) => {
                proof {
                    let i = choose|i: int|
                        0 <= i < parsed.len() && parsed[i] is Err && e == parsed[i]->Err_0
                            && forall|j: int| 0 <= j < i ==> (#[trigger] parsed[j]) is Ok;
                    assert(outcome(parsed[i]) == field_of(pieces[i]));
                    assert(field_of(pieces[i]) is Err);
                    assert(e.spec_kind() == ErrorKind::InvalidSyntax);
                    assert forall|j: int| 0 <= j < i implies (#[trigger] field_of(pieces[j])) is Ok by {
                        assert(outcome(parsed[j]) == field_of(pieces[j]));
                    }
                    assert(is_first_bad_field(pieces, i));
                    let f = choose|f: int| is_first_bad_field(pieces, f);
                    assert(f == i) by {
                        if f < i {
                            assert(field_of(pieces[f]) is Ok);
                        } else if f > i {
                            assert(field_of(pieces[i]) is Ok);
                        }
                    }
                }
                return Err(e);
            },
        };
        proof {
            assert forall|i: int| 0 <= i < pieces.len() implies (#[trigger] field_of(pieces[i])) is Ok by {
                assert(outcome(parsed[i]) == field_of(pieces[i]));
            }
            assert(range_elements@ =~= pieces.map_values(|p: Seq<char>| field_value(p))) by {
                assert forall|i: int| 0 <= i < pieces.len() implies range_elements@[i] == field_value(pieces[i]) by {
                    assert(outcome(parsed[i]) == field_of(pieces[i]));
                }
            }
        }
        assert(braced_of(input@) == bounds_of(range_elements@));
        assert(!exists|i: int| is_first_bad_field(pieces, i));
        if range_elements.len() == 2 {
            Self::create_ranged_quantifier(range_elements[0], range_elements[1])
        } else if range_elements.len() == 1 {
            match range_elements[0] {
                Some(value) => Ok(Quantifier::AtLeast(value)),
                None => Err(Error::new(
                    ErrorKind::InvalidQuantifier,
                    "Cannot create a ranged quantifier with an empty field.",
                )),
            }
        } else {
            let mut msg = "Cannot create a ranged quantifier with ".to_owned();
            push_decimal(&mut msg, range_elements.len());
            msg.append(" fields.");
            Err(Error::with_message(ErrorKind::InvalidQuantifier, msg))
        }
    }

    /// Reads each comma-separated piece of `input` as a count field.
    fn split_range_components(input: &Vec<char>) -> (r: Vec<ParseResult<Option<usize>>>)
        ensures
            r@.len() == split_commas(input@).len(),
            forall|i: int| 0 <= i < r@.len() ==> outcome(#[trigger] r@[i]) == field_of(split_commas(input@)[i]),
            forall|i: int| 0 <= i < r@.len() && (#[trigger] r@[i]) is Err
                ==> r@[i]->Err_0.spec_message() == field_message(split_commas(input@)[i]),
    {
        let mut components: Vec<ParseResult<Option<usize>>> = Vec::new();
        let mut piece: Vec<char> = Vec::new();
        let len = input.len();
        let mut i: usize = 0;
        while i < len
            invariant
                i <= len == input@.len(),
                split_commas(input@.take(i as int)).len() == components@.len() + 1,
                forall|k: int| 0 <= k < components@.len() ==> outcome(#[trigger] components@[k]) == field_of(split_commas(input@.take(i as int))[k]),
                forall|k: int| 0 <= k < components@.len() && (#[trigger] components@[k]) is Err
                    ==> components@[k]->Err_0.spec_message() == field_message(split_commas(input@.take(i as int))[k]),
                piece@ == without_braces(split_commas(input@.take(i as int)).last()),
            decreases len - i,
        {
            let ghost before = split_commas(input@.take(i as int));
            let c = input[i];
            assert(input@.take(i + 1).drop_last() =~= input@.take(i as int));
            if c == ',' {
                components.push(Self::parse_integer_or_empty(&trimmed(&piece)));
                piece = Vec::new();
            } else {
                let ghost last = before.last();
                assert(last.push(c).drop_last() =~= last);
                if !(c == '{' || c == '}') {
                    piece.push(c);
                }
            }
            i += 1;
        }
        assert(input@.take(len as int) =~= input@);
        components.push(Self::parse_integer_or_empty(&trimmed(&piece)));
        components
    }

    /// Reads a count field stripped of white space: empty, or an unsigned integer.
    fn parse_integer_or_empty(input: &Vec<char>) -> (r: ParseResult<Option<usize>>)
        ensures
            outcome(r) == count_of(input@),
            r is Err ==> r->Err_0.spec_message() == unsigned_error_message(input@),
    {
        if input.len() == 0 {
            Ok(None)
        } else {
            match parse_count(input) {
                Ok(n) => Ok(Some(n)),
                Err(e) => Err(e),
            }
        }
    }

    /// Takes the values out of the results, or hands back the first error.
    fn collect_parse_errors(results: Vec<ParseResult<Option<usize>>>) -> (r: ParseResult<Vec<Option<usize>>>)
        ensures
            match r {
                Ok(v) => v@.len() == results@.len() && forall|i: int| 0 <= i < results@.len()
                    ==> (#[trigger] results@[i]) is Ok && v@[i] == results@[i]->Ok_0,
                Err(e) => exists|i: int|
                    0 <= i < results@.len() && (#[trigger] results@[i]) is Err && e == results@[i]->Err_0
                        && forall|j: int| 0 <= j < i ==> (#[trigger] results@[j]) is Ok,
            },
    {
        let ghost all = results@;
        let mut range_elements: Vec<Option<usize>> = Vec::new();
        for parse_result in it: results.into_iter()
            invariant
                it.seq() == all,
                range_elements@.len() == it.index(),
                forall|k: int| 0 <= k < it.index() ==> (#[trigger] all[k]) is Ok && range_elements@[k] == all[k]->Ok_0,
        {
            match parse_result {
                Ok(component) => range_elements.push(component),
                Err(e) => return Err(e),
            }
        }
        Ok(range_elements)
    }

    fn create_ranged_quantifier(start: Option<usize>, end: Option<usize>) -> (r: ParseResult<Quantifier>)
        ensures
            outcome(r) == ranged_of(start, end),
            r is Err ==> r->Err_0.spec_message() == two_empty_fields_message(),
    {
        match (start, end) {
            (Some(start_value), None) => Ok(Quantifier::AtLeast(start_value)),
            (None, Some(end_value)) => Ok(Quantifier::AtMost(end_value)),
            (Some(start_value), Some(end_value)) => Ok(Quantifier::Range(start_value, end_value)),
            (None, None) => Err(Error::new(ErrorKind::InvalidQuantifier, "Cannot create ranged quantifier with two empty fields.")),
        }
    }
}

/// Reads an unsigned integer as `usize::from_str` does; the error carries
/// the same text as that function's.
fn parse_count(t: &Vec<char>) -> (r: ParseResult<usize>)
    ensures
        match r {
            Ok(n) => parse_unsigned(t@) == Some(n),
            Err(e) => parse_unsigned(t@) is None && e.spec_kind() == ErrorKind::InvalidSyntax
                && e.spec_message() == unsigned_error_message(t@),
        },
{
    let len = t.len();
    if len == 0 {
        return Err(Error::new(ErrorKind::InvalidSyntax, "cannot parse integer from empty string"));
    }
    let start: usize = if t[0] == '+' { 1 } else { 0 };
    let ghost d = unsigned_digits(t@);
    assert(d =~= t@.subrange(start as int, len as int));
    if start == len {
        return Err(Error::new(ErrorKind::InvalidSyntax, "invalid digit found in string"));
    }
    let mut value: usize = 0;
    let mut i: usize = start;
    while i < len
        invariant
            start <= i <= len == t@.len(),
            d == t@.subrange(start as int, len as int),
            d == unsigned_digits(t@),
            forall|k: int| start <= k < i ==> is_decimal_digit(#[trigger] t@[k]),
            value == digits_value(d.take(i - start)),
        decreases len - i,
    {
        let c = t[i];
        assert(d[i - start] == c);
        if !('0' <= c && c <= '9') {
            assert(!is_decimal_digit(d[i - start]));
            assert(!overflows_first(d)) by {
                if overflows_first(d) {
                    let k = choose|k: int|
                        0 < k <= d.len() && (forall|j: int| 0 <= j < k ==> is_decimal_digit(#[trigger] d[j]))
                            && #[trigger] digits_value(d.take(k)) > usize::MAX;
                    if k > i - start {
                        assert(is_decimal_digit(d[i - start]));
                    }
                    lemma_digits_value_prefix(d.take(i - start), k);
                    assert(d.take(i - start).take(k) =~= d.take(k));
                }
            }
            return Err(Error::new(ErrorKind::InvalidSyntax, "invalid digit found in string"));
        }
        let digit = (c as u32 - 48) as usize;
        assert(d.take(i - start + 1).drop_last() =~= d.take(i - start));
        let next = match value.checked_mul(10) {
            Some(m) => m.checked_add(digit),
            None => None,
        };
        match next {
            Some(v) => value = v,
            None => {
                proof {
                    let p = d.take(i - start + 1);
                    assert(p.last() == c);
                    assert(digits_value(p) == value * 10 + digit);
                    assert(digits_value(p) > usize::MAX);
                    lemma_digits_value_prefix(d, i - start + 1);
                }
                return Err(Error::new(ErrorKind::InvalidSyntax, "number too large to fit in target type"));
            },
        }
        i += 1;
    }
    assert(d.take(len - start) =~= d);
    Ok(value)
}

} // verus!
