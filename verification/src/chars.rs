//! Characters and their classes.
//!
//! Three classes are Unicode's and are asked of std: whitespace, letters,
//! and letters or digits. What std answers for a character is kept beside
//! it in a `Symbol`; the lexer reads symbols and asks nothing itself.
use vstd::prelude::*;
use vstd::string::*;

verus! {

/// Whether `c` has the Unicode property Alphabetic, as `char::is_alphabetic`
/// decides it.
pub uninterp spec fn char_is_alphabetic(c: char) -> bool;

/// Whether `c` is alphabetic or numeric in Unicode's sense, as
/// `char::is_alphanumeric` decides it.
pub uninterp spec fn char_is_alphanumeric(c: char) -> bool;

/// Whether `c` has the Unicode property White_Space, as
/// `char::is_whitespace` decides it.
pub uninterp spec fn char_is_whitespace(c: char) -> bool;

/// `char::is_alphabetic` of std. Not proved: the result is a function of the
/// character alone, named `char_is_alphabetic`.
pub assume_specification[ char::is_alphabetic ](c: char) -> (r: bool)
    ensures
        r == char_is_alphabetic(c),
;

/// `char::is_alphanumeric` of std. Not proved: the result is a function of
/// the character alone, named `char_is_alphanumeric`.
pub assume_specification[ char::is_alphanumeric ](c: char) -> (r: bool)
    ensures
        r == char_is_alphanumeric(c),
;

/// `char::is_whitespace` of std. Not proved: the result is a function of the
/// character alone, named `char_is_whitespace`.
pub assume_specification[ char::is_whitespace ](c: char) -> (r: bool)
    ensures
        r == char_is_whitespace(c),
;

/// `String::push` of std. Not proved: the character is appended to the end
/// of the string.
pub assume_specification[ String::push ](text: &mut String, c: char)
    ensures
        final(text)@ == old(text)@.push(c),
;

/// A character with what the three classes say of it.
#[derive(Clone, Copy, PartialEq, Eq, Structural, Debug)]
pub struct Symbol {
    pub character: char,
    pub whitespace: bool,
    pub alphabetic: bool,
    pub alphanumeric: bool,
}

/// The symbol of a character: the character with its classes.
pub open spec fn symbol_of(c: char) -> Symbol {
    Symbol {
        character: c,
        whitespace: char_is_whitespace(c),
        alphabetic: char_is_alphabetic(c),
        alphanumeric: char_is_alphanumeric(c),
    }
}

/// The symbols of a text, character by character.
pub open spec fn classified(text: Seq<char>) -> Seq<Symbol> {
    Seq::new(text.len(), |i: int| symbol_of(text[i]))
}

/// The characters of a sequence of symbols.
pub open spec fn characters(symbols: Seq<Symbol>) -> Seq<char> {
    Seq::new(symbols.len(), |i: int| symbols[i].character)
}

/// The characters of the symbols of a text are the text.
pub proof fn lemma_characters_classified(text: Seq<char>)
    ensures
        characters(classified(text)) == text,
{
    assert(characters(classified(text)) =~= text);
}

/// Asks std for the classes of a character.
pub fn classify_char(c: char) -> (symbol: Symbol)
    ensures
        symbol == symbol_of(c),
{
    Symbol {
        character: c,
        whitespace: c.is_whitespace(),
        alphabetic: c.is_alphabetic(),
        alphanumeric: c.is_alphanumeric(),
    }
}

/// Asks std for the classes of every character of a text.
pub fn classify(text: &str) -> (symbols: Vec<Symbol>)
    ensures
        symbols@ == classified(text@),
{
    let n = text.unicode_len();
    let mut symbols: Vec<Symbol> = Vec::new();
    let mut i: usize = 0;
    while i < n
        invariant
            i <= n,
            n == text@.len(),
            symbols@ == classified(text@.subrange(0, i as int)),
        decreases n - i,
    {
        symbols.push(classify_char(text.get_char(i)));
        assert(symbols@ =~= classified(text@.subrange(0, i + 1)));
        i += 1;
    }
    assert(text@.subrange(0, n as int) =~= text@);
    symbols
}

/// The text that the symbols `symbols[from..to]` spell.
pub(crate) fn text_of(symbols: &Vec<Symbol>, from: usize, to: usize) -> (text: String)
    requires
        from <= to <= symbols@.len(),
    ensures
        text@ == characters(symbols@.subrange(from as int, to as int)),
{
    let mut text = String::new();
    let mut i: usize = from;
    while i < to
        invariant
            from <= i <= to <= symbols@.len(),
            text@ == characters(symbols@.subrange(from as int, i as int)),
        decreases to - i,
    {
        text.push(symbols[i].character);
        assert(text@ =~= characters(symbols@.subrange(from as int, i + 1)));
        i += 1;
    }
    text
}

/// A decimal digit `0` to `9`.
pub open spec fn spec_is_digit(c: char) -> bool {
    '0' <= c <= '9'
}

/// Whether `c` is a decimal digit `0` to `9`.
#[verifier::when_used_as_spec(spec_is_digit)]
pub fn is_digit(c: char) -> (r: bool)
    ensures
        r == spec_is_digit(c),
{
    c >= '0' && c <= '9'
}

/// A character of the operator alphabet `& | ! - ^ < >`.
pub open spec fn spec_is_operator_char(c: char) -> bool {
    c == '&' || c == '|' || c == '!' || c == '-' || c == '^' || c == '<' || c == '>'
}

/// Whether `c` is a character of the operator alphabet.
#[verifier::when_used_as_spec(spec_is_operator_char)]
pub fn is_operator_char(c: char) -> (r: bool)
    ensures
        r == spec_is_operator_char(c),
{
    c == '&' || c == '|' || c == '!' || c == '-' || c == '^' || c == '<' || c == '>'
}

/// The classes of symbols that a token is scanned over.
#[derive(Clone, Copy, PartialEq, Eq, Structural, Debug)]
pub enum CharClass {
    /// Letters and digits: the tail of an identifier.
    Alphanumeric,
    /// Decimal digits.
    Digit,
    /// The operator alphabet.
    Operator,
    /// Everything but `]`: the inside of a bracket literal.
    Bracketed,
}

impl CharClass {
    /// Whether `symbol` belongs to the class.
    pub open spec fn spec_contains(self, symbol: Symbol) -> bool {
        match self {
            CharClass::Alphanumeric => symbol.alphanumeric,
            CharClass::Digit => spec_is_digit(symbol.character),
            CharClass::Operator => spec_is_operator_char(symbol.character),
            CharClass::Bracketed => symbol.character != ']',
        }
    }

    /// Whether `symbol` belongs to the class.
    #[verifier::when_used_as_spec(spec_contains)]
    pub fn contains(self, symbol: Symbol) -> (r: bool)
        ensures
            r == self.spec_contains(symbol),
    {
        match self {
            CharClass::Alphanumeric => symbol.alphanumeric,
            CharClass::Digit => is_digit(symbol.character),
            CharClass::Operator => is_operator_char(symbol.character),
            CharClass::Bracketed => symbol.character != ']',
        }
    }
}

/// The first position at or after `from` whose symbol is not in `class`,
/// or the number of symbols if there is none.
pub open spec fn run_end(symbols: Seq<Symbol>, from: int, class: CharClass) -> int
    decreases symbols.len() - from,
{
    if 0 <= from < symbols.len() && class.spec_contains(symbols[from]) {
        run_end(symbols, from + 1, class)
    } else {
        from
    }
}

/// A run ends within the symbols, holds only symbols of its class, and is
/// followed by a symbol outside the class or by the end.
pub proof fn lemma_run_end(symbols: Seq<Symbol>, from: int, class: CharClass)
    requires
        0 <= from <= symbols.len(),
    ensures
        from <= run_end(symbols, from, class) <= symbols.len(),
        forall|k: int|
            from <= k < run_end(symbols, from, class) ==> class.spec_contains(
                #[trigger] symbols[k],
            ),
        run_end(symbols, from, class) < symbols.len() ==> !class.spec_contains(
            symbols[run_end(symbols, from, class)],
        ),
    decreases symbols.len() - from,
{
    if from < symbols.len() && class.spec_contains(symbols[from]) {
        lemma_run_end(symbols, from + 1, class);
    }
}

/// A position that only symbols of the class precede, from `from` on, and
/// that holds a symbol outside the class or is the end, is the end of the
/// run.
pub proof fn lemma_run_end_is(symbols: Seq<Symbol>, from: int, end: int, class: CharClass)
    requires
        0 <= from <= end <= symbols.len(),
        forall|k: int| from <= k < end ==> class.spec_contains(#[trigger] symbols[k]),
        end < symbols.len() ==> !class.spec_contains(symbols[end]),
    ensures
        run_end(symbols, from, class) == end,
    decreases end - from,
{
    if from < end {
        assert(class.spec_contains(symbols[from]));
        lemma_run_end_is(symbols, from + 1, end, class);
    }
}

/// The end of the run of symbols of `class` that starts at `from`.
pub fn skip_run(symbols: &Vec<Symbol>, from: usize, class: CharClass) -> (end: usize)
    ensures
        end == run_end(symbols@, from as int, class),
        from <= end,
        from <= symbols@.len() ==> end <= symbols@.len(),
{
    let n = symbols.len();
    let mut i: usize = from;
    while i < n && class.contains(symbols[i])
        invariant
            n == symbols@.len(),
            from <= i,
            from <= n ==> i <= n,
            run_end(symbols@, i as int, class) == run_end(symbols@, from as int, class),
        decreases n - i,
    {
        i += 1;
    }
    i
}

} // verus!
