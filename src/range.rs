use vstd::prelude::*;

use crate::error::{Error, ErrorKind, ParseResult};
use crate::text::chars_of;

verus! {

/// One entry of a bracket character class.
#[derive(Debug, Clone, Copy, PartialEq, Eq, Structural)]
pub enum RangeMatch {
    /// One literal character.
    Single(char),
    /// Every character from the first to the second, inclusive.
    Range(char, char),
}

/// A bracket character class: its entries in the order they were written.
/// Entries may overlap or repeat; none overrides another.
#[derive(Debug, Clone)]
pub struct Range {
    matches: Vec<RangeMatch>,
}

impl View for Range {
    type V = Seq<RangeMatch>;

    closed spec fn view(&self) -> Seq<RangeMatch> {
        self.matches@
    }
}

/// An entry is in order when, as a range, its start does not sort after its end.
pub open spec fn is_ordered(m: RangeMatch) -> bool {
    match m {
        RangeMatch::Single(_) => true,
        RangeMatch::Range(lo, hi) => lo <= hi,
    }
}

pub open spec fn all_ordered(ms: Seq<RangeMatch>) -> bool {
    forall|i: int| 0 <= i < ms.len() ==> is_ordered(#[trigger] ms[i])
}

/// The state of a left-to-right scan of a class body.
pub struct ScanState {
    /// A `\` was read: the next character is taken literally.
    pub strict_literal: bool,
    /// A `-` was read: the next character ends a range.
    pub range_context: bool,
    /// The last character read, not yet committed as an entry.
    pub previous: Option<char>,
    /// The entries committed so far.
    pub entries: Seq<RangeMatch>,
}

pub open spec fn initial_scan() -> ScanState {
    ScanState { strict_literal: false, range_context: false, previous: None, entries: Seq::empty() }
}

/// What an escaped character stands for: `\r`, `\n` and `\t` are control
/// characters, any other character stands for itself.
pub open spec fn decode_escape(c: char) -> char {
    if c == 'r' {
        '\r'
    } else if c == 'n' {
        '\n'
    } else if c == 't' {
        '\t'
    } else {
        c
    }
}

/// The committed entries with the buffered character, if any, added as a single.
pub open spec fn flushed(st: ScanState) -> Seq<RangeMatch> {
    match st.previous {
        Some(p) => st.entries.push(RangeMatch::Single(p)),
        None => st.entries,
    }
}

/// The scan ends a pending range with `c`: the buffered character is the
/// range's start; with none buffered there is nothing to anchor the range.
pub open spec fn range_end_step(st: ScanState, c: char) -> Result<ScanState, ErrorKind> {
    match st.previous {
        None => Err(ErrorKind::InvalidSyntax),
        Some(p) => if p > c {
            Err(ErrorKind::InvalidMatchRange)
        } else {
            Ok(ScanState {
                range_context: false,
                previous: None,
                entries: st.entries.push(RangeMatch::Range(p, c)),
                ..st
            })
        },
    }
}

/// The scan buffers `c`, committing the character buffered before it as a
/// single entry.
pub open spec fn buffer_step(st: ScanState, c: char) -> ScanState {
    ScanState { previous: Some(c), entries: flushed(st), ..st }
}

/// The scan reads the literal character `c`: it ends a pending range, or is
/// buffered.
pub open spec fn scan_literal(st: ScanState, c: char) -> Result<ScanState, ErrorKind> {
    if st.range_context {
        range_end_step(st, c)
    } else {
        Ok(buffer_step(st, c))
    }
}

/// The scan reads `c` as the character after a `\`.
pub open spec fn literal_step(st: ScanState, c: char) -> Result<ScanState, ErrorKind> {
    scan_literal(ScanState { strict_literal: false, ..st }, decode_escape(c))
}

/// The scan reads `c` as a character that no `\` precedes.
pub open spec fn standard_step(st: ScanState, c: char) -> Result<ScanState, ErrorKind> {
    if c == '\\' {
        Ok(ScanState { strict_literal: true, ..st })
    } else if c == '-' {
        Ok(ScanState { range_context: true, ..st })
    } else if c == '[' || c == ']' {
        Err(ErrorKind::InvalidSyntax)
    } else {
        scan_literal(st, c)
    }
}

/// The scan reads the character `c` of the body.
pub open spec fn scan_step(st: ScanState, c: char) -> Result<ScanState, ErrorKind> {
    if st.strict_literal {
        literal_step(st, c)
    } else {
        standard_step(st, c)
    }
}

/// The state after scanning all of `s`, or the first failure.
pub open spec fn scan(s: Seq<char>) -> Result<ScanState, ErrorKind>
    decreases s.len(),
{
    if s.len() == 0 {
        Ok(initial_scan())
    } else {
        match scan(s.drop_last()) {
            Ok(st) => scan_step(st, s.last()),
            Err(e) => Err(e),
        }
    }
}

/// The message for a range marker with no start, which `end` would have ended.
pub open spec fn dangling_range_message(end: char) -> Seq<char> {
    "Malformed range statement: could not complete range ending in '"@.push(end) + "'."@
}

/// The message for a range whose start `lo` sorts after its end `hi`.
pub open spec fn reversed_range_message(lo: char, hi: char) -> Seq<char> {
    ("Could not form match range: '"@.push(lo) + "' sorts after '"@).push(hi).push('\'')
}

pub open spec fn open_bracket_message() -> Seq<char> {
    "Reached beginning of new match range while parsing"@
}

pub open spec fn close_bracket_message() -> Seq<char> {
    "Reached end of match range while parsing"@
}

pub open spec fn trailing_dash_message() -> Seq<char> {
    "Malformed range statement: no character follows the range marker '-'."@
}

/// The message when ending a pending range with `c` fails.
pub open spec fn range_end_message(st: ScanState, c: char) -> Seq<char> {
    match st.previous {
        None => dangling_range_message(c),
        Some(p) => reversed_range_message(p, c),
    }
}

/// The message when the standard step on `c` fails.
pub open spec fn standard_message(st: ScanState, c: char) -> Seq<char> {
    if c == '[' {
        open_bracket_message()
    } else if c == ']' {
        close_bracket_message()
    } else {
        range_end_message(st, c)
    }
}

/// The message when the step on the escaped character `c` fails.
pub open spec fn literal_message(st: ScanState, c: char) -> Seq<char> {
    range_end_message(st, decode_escape(c))
}

/// The message when the scan's step on `c` fails.
pub open spec fn step_message(st: ScanState, c: char) -> Seq<char> {
    if st.strict_literal {
        literal_message(st, c)
    } else {
        standard_message(st, c)
    }
}

/// The message of the first failure in the scan of `s`, where it fails.
pub open spec fn scan_message(s: Seq<char>) -> Seq<char>
    decreases s.len(),
{
    if s.len() == 0 {
        Seq::empty()
    } else {
        match scan(s.drop_last()) {
            Ok(st) => step_message(st, s.last()),
            Err(_) => scan_message(s.drop_last()),
        }
    }
}

/// The entries a finished scan gives. A `-` with no character after it ends
/// no range and is refused; a `\` with nothing after it is ignored.
pub open spec fn finish_scan(st: ScanState) -> Result<Seq<RangeMatch>, ErrorKind> {
    if st.range_context {
        Err(ErrorKind::InvalidSyntax)
    } else {
        Ok(flushed(st))
    }
}

/// `s` without one leading `[` and one trailing `]`, where present.
pub open spec fn strip_brackets(s: Seq<char>) -> Seq<char> {
    let start: int = if s.len() > 0 && s[0] == '[' { 1 } else { 0 };
    let end: int = if s.len() > 0 && s.last() == ']' { s.len() - 1 } else { s.len() as int };
    s.subrange(start, end)
}

/// The entries the class text `s` stands for.
pub open spec fn class_of(s: Seq<char>) -> Result<Seq<RangeMatch>, ErrorKind> {
    match scan(strip_brackets(s)) {
        Ok(st) => finish_scan(st),
        Err(e) => Err(e),
    }
}

/// The message of the failure in reading the class text `s`, where it fails.
pub open spec fn class_message(s: Seq<char>) -> Seq<char> {
    match scan(strip_brackets(s)) {
        Ok(_) => trailing_dash_message(),
        Err(_) => scan_message(strip_brackets(s)),
    }
}

impl Default for Range {
    /// The class with no entries.
    fn default() -> (r: Self)
        ensures
            r@ == Seq::<RangeMatch>::empty(),
    {
        Range { matches: Vec::new() }
    }
}

/// Appends the text of the literal character `c` inside a class body.
fn push_escaped(s: &mut String, c: char)
    ensures
        final(s)@ == old(s)@ + escaped(c),
{
    let ghost start = s@;
    if c == '\\' || c == '-' || c == '[' || c == ']' {
        s.push('\\');
        s.push(c);
    } else if c == '\n' {
        s.push('\\');
        s.push('n');
    } else if c == '\t' {
        s.push('\\');
        s.push('t');
    } else if c == '\r' {
        s.push('\\');
        s.push('r');
    } else {
        s.push(c);
    }
    assert(s@ =~= start + escaped(c));
}

impl Range {
    /// Every range entry of the class is in order.
    pub open spec fn wf(&self) -> bool {
        all_ordered(self@)
    }

    /// The entries, in order.
    pub fn matches(&self) -> (r: &Vec<RangeMatch>)
        ensures
            r@ == self@,
    {
        &self.matches
    }

    /// Appends the range from `start` to `end`, which may not sort after it.
    pub fn add_range(&mut self, start: char, end: char)
        requires
            start <= end,
        ensures
            final(self)@ == old(self)@.push(RangeMatch::Range(start, end)),
            old(self).wf() ==> final(self).wf(),
    {
        proof {
            if self.wf() {
                lemma_push_ordered(self@, RangeMatch::Range(start, end));
            }
        }
        self.matches.push(RangeMatch::Range(start, end))
    }

    /// Appends the single character `character`.
    pub fn add_single(&mut self, character: char)
        ensures
            final(self)@ == old(self)@.push(RangeMatch::Single(character)),
            old(self).wf() ==> final(self).wf(),
    {
        proof {
            if self.wf() {
                lemma_push_ordered(self@, RangeMatch::Single(character));
            }
        }
        self.matches.push(RangeMatch::Single(character))
    }

    /// The canonical text of this class, which `parse` reads back as the
    /// same entries.
    pub fn to_pattern(&self) -> (r: String)
        ensures
            r@ == class_text(self@),
    {
        let mut r = String::new();
        r.push('[');
        let len = self.matches.len();
        let mut i: usize = 0;
        while i < len
            invariant
                i <= len == self@.len(),
                r@ == seq!['['] + entries_text(self@.take(i as int)),
            decreases len - i,
        {
            let ghost before = r@;
            match self.matches[i] {
                RangeMatch::Single(c) => push_escaped(&mut r, c),
                RangeMatch::Range(lo, hi) => {
                    push_escaped(&mut r, lo);
                    r.push('-');
                    push_escaped(&mut r, hi);
                },
            }
            assert(self@.take(i + 1).drop_last() =~= self@.take(i as int));
            assert(r@ =~= before + match_text(self@[i as int]));
            assert(r@ =~= seq!['['] + entries_text(self@.take(i + 1)));
            i += 1;
        }
        assert(self@.take(len as int) =~= self@);
        r.push(']');
        r
    }

    /// Reads a bracket class, with or without its enclosing `[` and `]`.
    pub fn parse(input: &String) -> (r: ParseResult<Self>)
        ensures
            match r {
                Ok(range) => class_of(input@) == Ok::<_, ErrorKind>(range@) && range.wf(),
                Err(e) => class_of(input@) == Err::<Seq<RangeMatch>, _>(e.spec_kind())
                    && e.spec_message() == class_message(input@),
            },
    {
        let body_text = Self::remove_enclosing_brackets(input);
        let characters = chars_of(body_text.as_str());
        let ghost body = characters@;
        let mut info = RangeParseInfo::new();
        let len = characters.len();
        let mut i: usize = 0;
        while i < len
            invariant
                i <= len == body.len(),
                body == characters@,
                body == strip_brackets(input@),
                scan(body.take(i as int)) == Ok::<_, ErrorKind>(info@),
                info.wf(),
            decreases len - i,
        {
            assert(body.take(i + 1).drop_last() =~= body.take(i as int));
            assert(scan(body.take(i + 1)) == scan_step(info@, characters@[i as int]));
            assert(scan_message(body.take(i + 1)) == step_message(info@, characters@[i as int]));
            info = match RangeParseInfo::parse_iterable(info, characters[i]) {
                Ok(next) => next,
                Err(e) => {
                    proof {
                        lemma_scan_failure_persists(body, i + 1);
                    }
                    return Err(e);
                },
            };
            i += 1;
        }
        assert(body.take(len as int) =~= body);
        info.finish_parse()
    }

    /// The text of a class without one leading `[` and one trailing `]`,
    /// where present.
    pub fn remove_enclosing_brackets(input: &String) -> (r: String)
        ensures
            r@ == strip_brackets(input@),
    {
        let text = input.as_str();
        let len = text.unicode_len();
        let start: usize = if len > 0 && text.get_char(0) == '[' { 1 } else { 0 };
        let end: usize = if len > 0 && text.get_char(len - 1) == ']' { len - 1 } else { len };
        text.substring_char(start, end).to_owned()
    }
}

/// How many `\` characters `s` ends with.
pub open spec fn trailing_backslashes(s: Seq<char>) -> nat
    decreases s.len(),
{
    if s.len() > 0 && s.last() == '\\' {
        trailing_backslashes(s.drop_last()) + 1
    } else {
        0
    }
}

/// The characters that stand for themselves only after a `\`.
pub open spec fn needs_escape(c: char) -> bool {
    c == '\\' || c == '-' || c == '[' || c == ']'
}

/// The text of the literal character `c` inside a class body.
pub open spec fn escaped(c: char) -> Seq<char> {
    if needs_escape(c) {
        seq!['\\', c]
    } else if c == '\n' {
        seq!['\\', 'n']
    } else if c == '\t' {
        seq!['\\', 't']
    } else if c == '\r' {
        seq!['\\', 'r']
    } else {
        seq![c]
    }
}

/// The text of one entry inside a class body.
pub open spec fn match_text(m: RangeMatch) -> Seq<char> {
    match m {
        RangeMatch::Single(c) => escaped(c),
        RangeMatch::Range(lo, hi) => escaped(lo) + seq!['-'] + escaped(hi),
    }
}

/// The text of a class body holding the entries `ms`, in order.
pub open spec fn entries_text(ms: Seq<RangeMatch>) -> Seq<char>
    decreases ms.len(),
{
    if ms.len() == 0 {
        Seq::empty()
    } else {
        entries_text(ms.drop_last()) + match_text(ms.last())
    }
}

/// The canonical text of a class: its entries between `[` and `]`.
pub open spec fn class_text(ms: Seq<RangeMatch>) -> Seq<char> {
    seq!['['] + entries_text(ms) + seq![']']
}

/// Every range that a class read from text holds is in order.
pub proof fn lemma_class_ranges_ordered(s: Seq<char>)
    ensures
        class_of(s) is Ok ==> all_ordered(class_of(s)->Ok_0),
{
    let body = strip_brackets(s);
    lemma_scan_ordered(body);
    if let Ok(st) = scan(body) {
        lemma_flushed_ordered(st);
    }
}

/// A `[` or `]` in a class body that no `\` escapes (an even number of
/// `\` stands right before it) makes the class malformed, unless a range
/// out of order comes before it.
pub proof fn lemma_unescaped_delimiter_rejected(s: Seq<char>, i: int)
    requires
        0 <= i < strip_brackets(s).len(),
        strip_brackets(s)[i] == '[' || strip_brackets(s)[i] == ']',
        trailing_backslashes(strip_brackets(s).take(i)) % 2 == 0,
        scan(strip_brackets(s).take(i)) != Err::<ScanState, _>(ErrorKind::InvalidMatchRange),
    ensures
        class_of(s) == Err::<Seq<RangeMatch>, _>(ErrorKind::InvalidSyntax),
{
    let body = strip_brackets(s);
    lemma_escape_parity(body.take(i));
    lemma_scan_failure_kinds(body.take(i));
    assert(body.take(i + 1).drop_last() =~= body.take(i));
    lemma_scan_failure_persists(body, i + 1);
}

/// A range whose start sorts after its end makes the class fail with
/// `InvalidMatchRange`, when the text before it was read without failure
/// and leaves no escape or range pending.
pub proof fn lemma_reversed_range_rejected(
    s: Seq<char>,
    prefix: Seq<char>,
    lo: char,
    hi: char,
    suffix: Seq<char>,
)
    requires
        strip_brackets(s) == prefix + match_text(RangeMatch::Range(lo, hi)) + suffix,
        scan(prefix) is Ok,
        !scan(prefix)->Ok_0.strict_literal,
        !scan(prefix)->Ok_0.range_context,
        lo > hi,
    ensures
        class_of(s) == Err::<Seq<RangeMatch>, _>(ErrorKind::InvalidMatchRange),
{
    let body = strip_brackets(s);
    lemma_scan_escaped(prefix, lo);
    let p1 = prefix + escaped(lo);
    lemma_scan_push(p1, '-');
    let p2 = p1.push('-');
    lemma_scan_escaped(p2, hi);
    let p3 = p2 + escaped(hi);
    assert(p3 =~= prefix + match_text(RangeMatch::Range(lo, hi)));
    assert(body.take(p3.len() as int) =~= p3);
    lemma_scan_failure_persists(body, p3.len() as int);
}

/// Reading the canonical text of a class whose ranges are in order gives
/// the same entries back.
pub proof fn lemma_class_text_round_trip(ms: Seq<RangeMatch>)
    requires
        all_ordered(ms),
    ensures
        class_of(class_text(ms)) == Ok::<_, ErrorKind>(ms),
{
    let t = class_text(ms);
    assert(strip_brackets(t) =~= entries_text(ms));
    lemma_scan_entries(ms);
}

/// The state a scan is in after the text of the entries `ms`: a trailing
/// single is still buffered.
pub open spec fn settled(ms: Seq<RangeMatch>) -> ScanState {
    if ms.len() > 0 && ms.last() is Single {
        ScanState {
            strict_literal: false,
            range_context: false,
            previous: Some(ms.last()->Single_0),
            entries: ms.drop_last(),
        }
    } else {
        ScanState { strict_literal: false, range_context: false, previous: None, entries: ms }
    }
}

proof fn lemma_scan_entries(ms: Seq<RangeMatch>)
    requires
        all_ordered(ms),
    ensures
        scan(entries_text(ms)) == Ok::<_, ErrorKind>(settled(ms)),
        flushed(settled(ms)) == ms,
    decreases ms.len(),
{
    if ms.len() == 0 {
        assert(entries_text(ms) =~= Seq::<char>::empty());
        assert(ms =~= Seq::<RangeMatch>::empty());
    } else {
        let prev = ms.drop_last();
        assert(all_ordered(prev)) by {
            assert forall|i: int| 0 <= i < prev.len() implies is_ordered(#[trigger] prev[i]) by {
                assert(prev[i] == ms[i]);
            }
        }
        lemma_scan_entries(prev);
        let t = entries_text(prev);
        let st = settled(prev);
        assert(is_ordered(ms[ms.len() - 1]));
        match ms.last() {
            RangeMatch::Single(c) => {
                lemma_scan_escaped(t, c);
                assert(entries_text(ms) == t + escaped(c));
                assert(ms.drop_last().push(ms.last()) =~= ms);
                assert(scan(entries_text(ms)) == Ok::<_, ErrorKind>(settled(ms)));
            },
            RangeMatch::Range(lo, hi) => {
                lemma_scan_escaped(t, lo);
                let p1 = t + escaped(lo);
                lemma_scan_push(p1, '-');
                let p2 = p1.push('-');
                lemma_scan_escaped(p2, hi);
                assert(p2 + escaped(hi) =~= t + match_text(ms.last()));
                assert(prev.push(ms.last()) =~= ms);
                assert(entries_text(ms) == p2 + escaped(hi));
                assert(scan(p2) == Ok::<_, ErrorKind>(ScanState { range_context: true, previous: Some(lo), entries: prev, ..st }));
                assert(scan(entries_text(ms)) == Ok::<_, ErrorKind>(settled(ms)));
            },
        }
    }
}

/// Scanning one more character.
proof fn lemma_scan_push(s: Seq<char>, c: char)
    ensures
        scan(s.push(c)) == match scan(s) {
            Ok(st) => scan_step(st, c),
            Err(e) => Err(e),
        },
{
    assert(s.push(c).drop_last() =~= s);
}

/// Scanning the text of a literal character reads that character.
proof fn lemma_scan_escaped(s: Seq<char>, c: char)
    requires
        scan(s) is Ok,
        !scan(s)->Ok_0.strict_literal,
    ensures
        scan(s + escaped(c)) == scan_literal(scan(s)->Ok_0, c),
{
    if escaped(c).len() == 2 {
        let e = escaped(c)[1];
        assert(decode_escape(e) == c);
        lemma_scan_push(s, '\\');
        lemma_scan_push(s.push('\\'), e);
        assert(s.push('\\').push(e) =~= s + escaped(c));
    } else {
        lemma_scan_push(s, c);
        assert(s.push(c) =~= s + escaped(c));
    }
}

/// A scan that has not failed has committed only ranges in order.
proof fn lemma_scan_ordered(s: Seq<char>)
    ensures
        scan(s) is Ok ==> all_ordered(scan(s)->Ok_0.entries),
    decreases s.len(),
{
    if s.len() > 0 {
        lemma_scan_ordered(s.drop_last());
        if let Ok(st) = scan(s.drop_last()) {
            let c = s.last();
            lemma_scan_literal_ordered(st, c);
            lemma_scan_literal_ordered(ScanState { strict_literal: false, ..st }, decode_escape(c));
        }
    }
}

proof fn lemma_scan_literal_ordered(st: ScanState, c: char)
    requires
        all_ordered(st.entries),
    ensures
        scan_literal(st, c) is Ok ==> all_ordered(scan_literal(st, c)->Ok_0.entries),
{
    if st.range_context {
        if let Some(start) = st.previous {
            let start = typed_char(start);
            if start <= c {
                lemma_push_ordered(st.entries, RangeMatch::Range(start, c));
            }
        }
    } else {
        lemma_flushed_ordered(st);
    }
}

/// `c` itself, as the result of a function of type `char`: a character
/// taken out of an `Option` or a `Seq` is then known to be a valid `char`.
proof fn typed_char(c: char) -> (r: char)
    ensures
        r == c,
{
    c
}

proof fn lemma_flushed_ordered(st: ScanState)
    requires
        all_ordered(st.entries),
    ensures
        all_ordered(flushed(st)),
{
    if let Some(last) = st.previous {
        let last = typed_char(last);
        lemma_push_ordered(st.entries, RangeMatch::Single(last));
    }
}

/// An escape is pending after a scan exactly when the text ends with an
/// odd number of `\`.
proof fn lemma_escape_parity(s: Seq<char>)
    ensures
        scan(s) is Ok ==> (scan(s)->Ok_0.strict_literal <==> trailing_backslashes(s) % 2 == 1),
    decreases s.len(),
{
    if s.len() > 0 {
        lemma_escape_parity(s.drop_last());
    }
}

/// A scan fails only as malformed or with a range out of order.
proof fn lemma_scan_failure_kinds(s: Seq<char>)
    ensures
        scan(s) is Err ==> scan(s)->Err_0 == ErrorKind::InvalidSyntax || scan(s)->Err_0
            == ErrorKind::InvalidMatchRange,
    decreases s.len(),
{
    if s.len() > 0 {
        lemma_scan_failure_kinds(s.drop_last());
    }
}

proof fn lemma_push_ordered(ms: Seq<RangeMatch>, m: RangeMatch)
    requires
        all_ordered(ms),
        is_ordered(m),
    ensures
        all_ordered(ms.push(m)),
{
    assert forall|i: int| 0 <= i < ms.push(m).len() implies is_ordered(#[trigger] ms.push(m)[i]) by {
        if i < ms.len() {
            assert(ms.push(m)[i] == ms[i]);
        }
    }
}

/// Once the scan of a prefix fails, the scan of the whole fails the same way.
proof fn lemma_scan_failure_persists(s: Seq<char>, k: int)
    requires
        0 <= k <= s.len(),
        scan(s.take(k)) is Err,
    ensures
        scan(s) == scan(s.take(k)),
        scan_message(s) == scan_message(s.take(k)),
    decreases s.len(),
{
    if k < s.len() {
        assert(s.drop_last().take(k) =~= s.take(k));
        lemma_scan_failure_persists(s.drop_last(), k);
    } else {
        assert(s.take(k) =~= s);
    }
}

/// The scan of a class body in progress.
struct RangeParseInfo {
    strict_literal: bool,
    range_context: bool,
    previous_character: Option<char>,
    current_range: Range,
}

impl View for RangeParseInfo {
    type V = ScanState;

    closed spec fn view(&self) -> ScanState {
        ScanState {
            strict_literal: self.strict_literal,
            range_context: self.range_context,
            previous: self.previous_character,
            entries: self.current_range@,
        }
    }
}

/// A step of the scan returned `r`, where the model gives `expected`, and
/// `message` where it fails.
spec fn steps_to(r: ParseResult<RangeParseInfo>, expected: Result<ScanState, ErrorKind>, message: Seq<char>) -> bool {
    match r {
        Ok(info) => expected == Ok::<_, ErrorKind>(info@) && info.wf(),
        Err(e) => expected == Err::<ScanState, _>(e.spec_kind()) && e.spec_message() == message,
    }
}

impl RangeParseInfo {
    spec fn wf(&self) -> bool {
        self.current_range.wf()
    }

    fn new() -> (r: Self)
        ensures
            r@ == initial_scan(),
            r.wf(),
    {
        let r = RangeParseInfo {
            strict_literal: false,
            range_context: false,
            previous_character: None,
            current_range: Range::default(),
        };
        r
    }

    fn parse_iterable(info: Self, current_character: char) -> (r: ParseResult<Self>)
        requires
            info.wf(),
        ensures
            steps_to(r, scan_step(info@, current_character), step_message(info@, current_character)),
    {
        if info.strict_literal {
            Self::parse_literal_context(current_character, info)
        } else {
            Self::parse_standard_context(current_character, info)
        }
    }

    /// Reads the character after a `\`.
    fn parse_literal_context(current_character: char, info: Self) -> (r: ParseResult<Self>)
        requires
            info.wf(),
        ensures
            steps_to(r, literal_step(info@, current_character), literal_message(info@, current_character)),
    {
        let mut info = info;
        let parsed_character = if current_character == 'r' {
            '\r'
        } else if current_character == 'n' {
            '\n'
        } else if current_character == 't' {
            '\t'
        } else {
            current_character
        };
        info.strict_literal = false;
        Self::parse_character(parsed_character, info)
    }

    /// Reads a character that no `\` precedes.
    fn parse_standard_context(current_character: char, info: Self) -> (r: ParseResult<Self>)
        requires
            info.wf(),
        ensures
            steps_to(r, standard_step(info@, current_character), standard_message(info@, current_character)),
    {
        let mut info = info;
        if current_character == '\\' {
            info.strict_literal = true;
            Ok(info)
        } else if current_character == '-' {
            info.range_context = true;
            Ok(info)
        } else if current_character == '[' {
            Err(Error::new(ErrorKind::InvalidSyntax, "Reached beginning of new match range while parsing"))
        } else if current_character == ']' {
            Err(Error::new(ErrorKind::InvalidSyntax, "Reached end of match range while parsing"))
        } else {
            Self::parse_character(current_character, info)
        }
    }

    fn parse_character(current_character: char, info: Self) -> (r: ParseResult<Self>)
        requires
            info.wf(),
        ensures
            steps_to(r, scan_literal(info@, current_character), range_end_message(info@, current_character)),
    {
        if info.range_context {
            Self::process_ranged_match(current_character, info)
        } else {
            Self::add_single_to_group(current_character, info)
        }
    }

    /// Ends the pending range with `current_character`.
    fn process_ranged_match(current_character: char, info: Self) -> (r: ParseResult<Self>)
        requires
            info.wf(),
        ensures
            steps_to(r, range_end_step(info@, current_character), range_end_message(info@, current_character)),
    {
        let mut info = info;
        match info.previous_character {
            Some(last_character) => {
                info.range_context = false;
                info.previous_character = None;
                Self::check_range_and_add(last_character, current_character, info)
            },
            None => {
                let mut msg = "Malformed range statement: could not complete range ending in '".to_owned();
                msg.push(current_character);
                msg.append("'.");
                Err(Error::with_message(ErrorKind::InvalidSyntax, msg))
            },
        }
    }

    /// Buffers `current_character`, committing the one buffered before it.
    fn add_single_to_group(current_character: char, info: Self) -> (r: ParseResult<Self>)
        requires
            info.wf(),
        ensures
            r is Ok,
            r->Ok_0@ == buffer_step(info@, current_character),
            r->Ok_0.wf(),
    {
        let mut info = info;
        if let Some(last_character) = info.previous_character {
            proof {
                lemma_push_ordered(info.current_range@, RangeMatch::Single(last_character));
            }
            info.current_range.add_single(last_character);
        }
        info.previous_character = Some(current_character);
        Ok(info)
    }

    fn check_range_and_add(start: char, end: char, info: Self) -> (r: ParseResult<Self>)
        requires
            info.wf(),
        ensures
            match r {
                Ok(next) => start <= end && next@ == (ScanState {
                    entries: info@.entries.push(RangeMatch::Range(start, end)),
                    ..info@
                }) && next.wf(),
                Err(e) => start > end && e.spec_kind() == ErrorKind::InvalidMatchRange
                    && e.spec_message() == reversed_range_message(start, end),
            },
    {
        let mut info = info;
        if start > end {
            let mut msg = "Could not form match range: '".to_owned();
            msg.push(start);
            msg.append("' sorts after '");
            msg.push(end);
            msg.push('\'');
            Err(Error::with_message(ErrorKind::InvalidMatchRange, msg))
        } else {
            proof {
                lemma_push_ordered(info.current_range@, RangeMatch::Range(start, end));
            }
            info.current_range.add_range(start, end);
            Ok(info)
        }
    }

    /// Ends the scan: commits the buffered character, or refuses a `-`
    /// that no character follows.
    fn finish_parse(self) -> (r: ParseResult<Range>)
        requires
            self.wf(),
        ensures
            match r {
                Ok(range) => finish_scan(self@) == Ok::<_, ErrorKind>(range@) && range.wf(),
                Err(e) => finish_scan(self@) == Err::<Seq<RangeMatch>, _>(e.spec_kind())
                    && e.spec_message() == trailing_dash_message(),
            },
    {
        let mut info = self;
        if info.range_context {
            return Err(Error::new(
                ErrorKind::InvalidSyntax,
                "Malformed range statement: no character follows the range marker '-'.",
            ));
        }
        match info.previous_character {
            Some(remaining_character) => {
                proof {
                    lemma_push_ordered(info.current_range@, RangeMatch::Single(remaining_character));
                }
                info.current_range.add_single(remaining_character);
                Ok(info.current_range)
            },
            None => Ok(info.current_range),
        }
    }
}

} // verus!
