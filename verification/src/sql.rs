//! The statements that the engine reads: `SELECT` of named columns or of
//! `count(*)` from one table, with an optional `WHERE column = 'text'`, and
//! the `CREATE TABLE` statements that the schema stores.
//!
//! The grammar is over the bytes of the text. Key words are matched without
//! regard to case; white space is space, tab, line feed and carriage return.

use crate::error::Error;
use crate::pattern::{regex_is_match, regex_search};
use vstd::prelude::*;
use vstd::string::{StringExecFns, StringSliceAdditionalSpecFns};
use vstd::utf8::{
    decode_utf8,
    is_char_boundary,
    is_continuation_byte,
    length_of_first_scalar,
    pop_first_scalar,
    valid_utf8,
};

verus! {

/// Whether the byte is white space.
pub open spec fn is_space(b: u8) -> bool {
    b == 0x20 || b == 0x09 || b == 0x0a || b == 0x0d
}

/// Whether the byte can stand in a plain identifier: a letter, a digit or an
/// underscore.
pub open spec fn is_word_byte(b: u8) -> bool {
    (0x30 <= b <= 0x39) || (0x41 <= b <= 0x5a) || (0x61 <= b <= 0x7a) || b == 0x5f
}

/// The byte with an upper-case letter made lower-case.
pub open spec fn lower(b: u8) -> u8 {
    if 0x41 <= b <= 0x5a {
        (b + 0x20) as u8
    } else {
        b
    }
}

/// The position of the first byte from `pos` on that is no white space.
pub open spec fn spaces_end(bytes: Seq<u8>, pos: int) -> int
    decreases bytes.len() - pos,
{
    if 0 <= pos < bytes.len() && is_space(bytes[pos]) {
        spaces_end(bytes, pos + 1)
    } else {
        pos
    }
}

/// The position of the first byte from `pos` on that cannot stand in an
/// identifier; in a quoted identifier a space can.
pub open spec fn word_end(bytes: Seq<u8>, pos: int, quoted: bool) -> int
    decreases bytes.len() - pos,
{
    if 0 <= pos < bytes.len() && (is_word_byte(bytes[pos]) || (quoted && bytes[pos] == 0x20)) {
        word_end(bytes, pos + 1, quoted)
    } else {
        pos
    }
}

/// Whether the key word `word`, given in lower case, stands at `pos`, in any
/// case.
pub open spec fn has_keyword(bytes: Seq<u8>, pos: int, word: Seq<u8>) -> bool {
    &&& 0 <= pos
    &&& pos + word.len() <= bytes.len()
    &&& forall|i: int| 0 <= i < word.len() ==> lower(#[trigger] bytes[pos + i]) == word[i]
}

/// The identifier at `pos`: where its text starts and ends, and where the
/// input goes on after it. An identifier is a run of letters, digits and
/// underscores, or such a run that may hold spaces too, between double
/// quotes.
pub open spec fn spec_identifier(bytes: Seq<u8>, pos: int) -> Option<(int, int, int)> {
    let plain = word_end(bytes, pos, false);
    if plain > pos {
        Some((pos, plain, plain))
    } else if 0 <= pos < bytes.len() && bytes[pos] == 0x22 {
        let quoted = word_end(bytes, pos + 1, true);
        if quoted > pos + 1 && quoted < bytes.len() && bytes[quoted] == 0x22 {
            Some((pos + 1, quoted, quoted + 1))
        } else {
            None
        }
    } else {
        None
    }
}

/// The text that the bytes from `start` to `end` spell.
pub open spec fn text_of(bytes: Seq<u8>, start: int, end: int) -> Seq<char> {
    decode_utf8(bytes.subrange(start, end))
}

/// Whether `pos` is a place where the text of `bytes` can be cut: the end of
/// the text, or the first byte of a character.
pub open spec fn cut_point(bytes: Seq<u8>, pos: int) -> bool {
    0 <= pos <= bytes.len() && is_char_boundary(bytes, pos)
}

/// In UTF-8 a character ends where a byte below 0x80 ends.
pub proof fn lemma_cut_after_ascii(bytes: Seq<u8>, i: int)
    requires
        valid_utf8(bytes),
        0 <= i < bytes.len(),
        bytes[i] < 0x80,
    ensures
        cut_point(bytes, i),
        cut_point(bytes, i + 1),
    decreases bytes.len(),
{
    assert(!is_continuation_byte(bytes[i])) by {
        let b = bytes[i];
        assert(b < 0x80 ==> !(b & 0xC0 == 0x80)) by (bit_vector);
    }
    vstd::utf8::is_char_boundary_iff_not_is_continuation_byte(bytes, i);
    reveal_with_fuel(is_char_boundary, 2);
    reveal_with_fuel(valid_utf8, 2);
    if i == 0 {
        let b = bytes[0];
        assert(b < 0x80 ==> b & 0x80 == 0) by (bit_vector);
        assert(length_of_first_scalar(bytes) == 1);
    } else {
        let width = length_of_first_scalar(bytes);
        let tail = pop_first_scalar(bytes);
        assert(is_char_boundary(tail, i - width));
        if i - width < 0 {
            assert(false);
        }
        assert(tail[i - width] == bytes[i]);
        lemma_cut_after_ascii(tail, i - width);
    }
}

/// The end of a run of white space is a cut point where its start is one.
pub proof fn lemma_spaces_end(bytes: Seq<u8>, pos: int)
    requires
        valid_utf8(bytes),
        cut_point(bytes, pos),
    ensures
        pos <= spaces_end(bytes, pos) <= bytes.len(),
        cut_point(bytes, spaces_end(bytes, pos)),
    decreases bytes.len() - pos,
{
    if pos < bytes.len() && is_space(bytes[pos]) {
        lemma_cut_after_ascii(bytes, pos);
        lemma_spaces_end(bytes, pos + 1);
    }
}

/// The end of a run of identifier bytes is a cut point where its start is
/// one.
pub proof fn lemma_word_end(bytes: Seq<u8>, pos: int, quoted: bool)
    requires
        valid_utf8(bytes),
        cut_point(bytes, pos),
    ensures
        pos <= word_end(bytes, pos, quoted) <= bytes.len(),
        cut_point(bytes, word_end(bytes, pos, quoted)),
    decreases bytes.len() - pos,
{
    if pos < bytes.len() && (is_word_byte(bytes[pos]) || (quoted && bytes[pos] == 0x20)) {
        lemma_cut_after_ascii(bytes, pos);
        lemma_word_end(bytes, pos + 1, quoted);
    }
}

/// An identifier starts and ends at cut points, and so does what follows it.
pub proof fn lemma_identifier_cuts(bytes: Seq<u8>, pos: int)
    requires
        valid_utf8(bytes),
        cut_point(bytes, pos),
    ensures
        spec_identifier(bytes, pos) matches Some((start, end, next)) ==> pos <= start < end
            <= next <= bytes.len() && cut_point(bytes, start) && cut_point(bytes, end)
            && cut_point(bytes, next),
{
    lemma_word_end(bytes, pos, false);
    if word_end(bytes, pos, false) == pos && pos < bytes.len() && bytes[pos] == 0x22 {
        lemma_cut_after_ascii(bytes, pos);
        lemma_word_end(bytes, pos + 1, true);
        let quoted = word_end(bytes, pos + 1, true);
        if quoted < bytes.len() && bytes[quoted] == 0x22 {
            lemma_cut_after_ascii(bytes, quoted);
        }
    }
}

/// A key word of bytes below 0x80 ends at a cut point.
pub proof fn lemma_keyword_cut(bytes: Seq<u8>, pos: int, word: Seq<u8>)
    requires
        valid_utf8(bytes),
        has_keyword(bytes, pos, word),
        word.len() > 0,
        word.last() < 0x80,
    ensures
        cut_point(bytes, pos + word.len()),
{
    let last = pos + (word.len() - 1);
    assert(lower(bytes[last]) == word[word.len() - 1]);
    lemma_cut_after_ascii(bytes, last);
}

/// Skips the white space from `pos` on.
fn skip_spaces(bytes: &[u8], pos: usize) -> (r: usize)
    requires
        pos <= bytes@.len(),
    ensures
        r == spaces_end(bytes@, pos as int),
        pos <= r <= bytes@.len(),
{
    let mut i = pos;
    while i < bytes.len() && (bytes[i] == 0x20 || bytes[i] == 0x09 || bytes[i] == 0x0a || bytes[i]
        == 0x0d)
        invariant
            pos <= i <= bytes@.len(),
            spaces_end(bytes@, pos as int) == spaces_end(bytes@, i as int),
        decreases bytes@.len() - i,
    {
        i += 1;
    }
    i
}

/// Whether the byte can stand in a plain identifier.
fn word_byte(b: u8) -> (r: bool)
    ensures
        r == is_word_byte(b),
{
    (0x30 <= b && b <= 0x39) || (0x41 <= b && b <= 0x5a) || (0x61 <= b && b <= 0x7a) || b == 0x5f
}

/// Skips the identifier bytes from `pos` on.
fn skip_word(bytes: &[u8], pos: usize, quoted: bool) -> (r: usize)
    requires
        pos <= bytes@.len(),
    ensures
        r == word_end(bytes@, pos as int, quoted),
        pos <= r <= bytes@.len(),
{
    let mut i = pos;
    while i < bytes.len() && (word_byte(bytes[i]) || (quoted && bytes[i] == 0x20))
        invariant
            pos <= i <= bytes@.len(),
            word_end(bytes@, pos as int, quoted) == word_end(bytes@, i as int, quoted),
        decreases bytes@.len() - i,
    {
        i += 1;
    }
    i
}

/// Whether the key word `word` stands at `pos`.
fn at_keyword<const N: usize>(bytes: &[u8], pos: usize, word: &[u8; N]) -> (r: bool)
    requires
        pos <= bytes@.len(),
    ensures
        r == has_keyword(bytes@, pos as int, word@),
        word@.len() == N,
        r ==> pos + N <= bytes@.len(),
{
    let len = bytes.len();
    if len - pos < N {
        return false;
    }
    let mut i: usize = 0;
    while i < N
        invariant
            i <= N,
            len == bytes@.len(),
            pos + N <= len,
            word@.len() == N,
            forall|j: int| 0 <= j < i ==> lower(#[trigger] bytes@[pos + j]) == word@[j],
        decreases N - i,
    {
        let b = bytes[pos + i];
        let folded = if 0x41 <= b && b <= 0x5a {
            b + 0x20
        } else {
            b
        };
        if folded != word[i] {
            assert(lower(bytes@[pos + i]) != word@[i as int]);
            return false;
        }
        i += 1;
    }
    true
}

/// Finds the identifier at `pos`.
fn identifier_at(bytes: &[u8], pos: usize) -> (r: Option<(usize, usize, usize)>)
    requires
        pos <= bytes@.len(),
    ensures
        match spec_identifier(bytes@, pos as int) {
            Some((start, end, next)) => r == Some((start as usize, end as usize, next as usize))
                && pos <= start < end <= next <= bytes@.len(),
            None => r.is_none(),
        },
{
    let plain = skip_word(bytes, pos, false);
    if plain > pos {
        return Some((pos, plain, plain));
    }
    if pos < bytes.len() && bytes[pos] == 0x22 {
        let quoted = skip_word(bytes, pos + 1, true);
        if quoted > pos + 1 && quoted < bytes.len() && bytes[quoted] == 0x22 {
            return Some((pos + 1, quoted, quoted + 1));
        }
    }
    None
}

/// The part of `input` from byte `from` to byte `to`.
fn slice_str<'a>(input: &'a str, from: usize, to: usize) -> (r: &'a str)
    requires
        from <= to,
        cut_point(input.spec_bytes(), from as int),
        cut_point(input.spec_bytes(), to as int),
    ensures
        r.spec_bytes() == input.spec_bytes().subrange(from as int, to as int),
        r@ == text_of(input.spec_bytes(), from as int, to as int),
{
    let ghost bytes = input.spec_bytes();
    proof {
        vstd::utf8::encode_utf8_valid_utf8(input@);
    }
    let (head, _) = input.split_at(to);
    proof {
        vstd::utf8::valid_utf8_split(bytes, to as int);
        assert(head.spec_bytes() =~= bytes.subrange(0, to as int));
        if from < to {
            vstd::utf8::is_char_boundary_iff_not_is_continuation_byte(bytes, from as int);
            vstd::utf8::is_char_boundary_iff_not_is_continuation_byte(
                head.spec_bytes(),
                from as int,
            );
        } else {
            vstd::utf8::is_char_boundary_start_end_of_seq(head.spec_bytes());
        }
    }
    let (_, r) = head.split_at(from);
    proof {
        assert(r.spec_bytes() =~= bytes.subrange(from as int, to as int));
        vstd::utf8::encode_utf8_decode_utf8(r@);
    }
    r
}

/// Reads the identifier that starts `input`: the input that follows it, and
/// its text, without the quotes where it is quoted.
///
/// Fails with `Syntax` where `input` starts with no identifier.
pub fn identifier(input: &str) -> (r: Result<(&str, &str), Error>)
    ensures
        match spec_identifier(input.spec_bytes(), 0) {
            Some((start, end, next)) => r matches Ok((rest, name)) && name@ == text_of(
                input.spec_bytes(),
                start,
                end,
            ) && rest@ == text_of(input.spec_bytes(), next, input.spec_bytes().len() as int),
            None => r matches Err(e) && e == Error::Syntax,
        },
{
    let bytes = input.as_bytes();
    proof {
        vstd::utf8::encode_utf8_valid_utf8(input@);
        vstd::utf8::is_char_boundary_start_end_of_seq(bytes@);
        lemma_identifier_cuts(bytes@, 0);
    }
    match identifier_at(bytes, 0) {
        Some((start, end, next)) => Ok(
            (slice_str(input, next, bytes.len()), slice_str(input, start, end)),
        ),
        None => Err(Error::Syntax),
    }
}

/// The key word `select`.
pub const SELECT: [u8; 6] = [0x73, 0x65, 0x6c, 0x65, 0x63, 0x74];

/// The key word `from`.
pub const FROM: [u8; 4] = [0x66, 0x72, 0x6f, 0x6d];

/// The key word `where`.
pub const WHERE: [u8; 5] = [0x77, 0x68, 0x65, 0x72, 0x65];

/// The projection `count(*)`.
pub const COUNT_ALL: [u8; 8] = [0x63, 0x6f, 0x75, 0x6e, 0x74, 0x28, 0x2a, 0x29];

/// The key words `create table`, one space apart.
pub const CREATE_TABLE: [u8; 12] = [
    0x63,
    0x72,
    0x65,
    0x61,
    0x74,
    0x65,
    0x20,
    0x74,
    0x61,
    0x62,
    0x6c,
    0x65,
];

/// How a `WHERE` clause compares its column with its value.
#[derive(Debug, Clone, Copy, PartialEq, Eq, Structural)]
pub enum Comparator {
    Eq,
    Ne,
    Lt,
    Gt,
    Le,
    Ge,
}

/// A `WHERE` clause: a column, a comparison, and the text to compare with.
#[derive(Debug, PartialEq, Clone)]
pub struct WhereClause {
    pub column: String,
    pub operator: Comparator,
    pub value: String,
}

/// What a `WHERE` clause says, over mathematical sequences.
pub struct WhereModel {
    pub column: Seq<char>,
    pub operator: Comparator,
    pub value: Seq<char>,
}

impl View for WhereClause {
    type V = WhereModel;

    open spec fn view(&self) -> WhereModel {
        WhereModel { column: self.column@, operator: self.operator, value: self.value@ }
    }
}

/// The position of the first single quote from `pos` on, or the end of the
/// input where there is none.
pub open spec fn quote_end(bytes: Seq<u8>, pos: int) -> int
    decreases bytes.len() - pos,
{
    if 0 <= pos < bytes.len() && bytes[pos] != 0x27 {
        quote_end(bytes, pos + 1)
    } else {
        pos
    }
}

/// The `WHERE` clause at `pos`, and where the input goes on after it: the
/// key word, an identifier, an equals sign and a text between single quotes,
/// with any white space before each of them and after the text. The text
/// holds no single quote. Only equality is accepted.
pub open spec fn spec_where(bytes: Seq<u8>, pos: int) -> Option<(WhereModel, int)> {
    let keyword = spaces_end(bytes, pos);
    if has_keyword(bytes, keyword, WHERE@) {
        match spec_identifier(bytes, spaces_end(bytes, keyword + 5)) {
            None => None,
            Some((start, end, next)) => {
                let sign = spaces_end(bytes, next);
                let open = spaces_end(bytes, sign + 1);
                let close = quote_end(bytes, open + 1);
                if sign < bytes.len() && bytes[sign] == 0x3d && open < bytes.len() && bytes[open]
                    == 0x27 && close < bytes.len() {
                    Some(
                        (
                            WhereModel {
                                column: text_of(bytes, start, end),
                                operator: Comparator::Eq,
                                value: text_of(bytes, open + 1, close),
                            },
                            spaces_end(bytes, close + 1),
                        ),
                    )
                } else {
                    None
                }
            },
        }
    } else {
        None
    }
}

/// The end of a run without single quotes is a cut point where it is a
/// single quote.
pub proof fn lemma_quote_end(bytes: Seq<u8>, pos: int)
    requires
        valid_utf8(bytes),
        0 <= pos <= bytes.len(),
    ensures
        pos <= quote_end(bytes, pos) <= bytes.len(),
        quote_end(bytes, pos) < bytes.len() ==> bytes[quote_end(bytes, pos)] == 0x27 && cut_point(
            bytes,
            quote_end(bytes, pos),
        ) && cut_point(bytes, quote_end(bytes, pos) + 1),
    decreases bytes.len() - pos,
{
    if pos < bytes.len() {
        if bytes[pos] != 0x27 {
            lemma_quote_end(bytes, pos + 1);
        } else {
            lemma_cut_after_ascii(bytes, pos);
        }
    }
}

/// Skips to the first single quote from `pos` on.
fn skip_to_quote(bytes: &[u8], pos: usize) -> (r: usize)
    requires
        pos <= bytes@.len(),
    ensures
        r == quote_end(bytes@, pos as int),
        pos <= r <= bytes@.len(),
{
    let mut i = pos;
    while i < bytes.len() && bytes[i] != 0x27
        invariant
            pos <= i <= bytes@.len(),
            quote_end(bytes@, pos as int) == quote_end(bytes@, i as int),
        decreases bytes@.len() - i,
    {
        i += 1;
    }
    i
}

/// Reads the `WHERE` clause at byte `pos` of `input`.
fn where_at(input: &str, pos: usize) -> (r: Option<(WhereClause, usize)>)
    requires
        cut_point(input.spec_bytes(), pos as int),
    ensures
        match spec_where(input.spec_bytes(), pos as int) {
            Some((clause, next)) => r matches Some((c, n)) && c@ == clause && n == next
                && cut_point(input.spec_bytes(), next),
            None => r.is_none(),
        },
{
    let bytes = input.as_bytes();
    let len = bytes.len();
    proof {
        vstd::utf8::encode_utf8_valid_utf8(input@);
        lemma_spaces_end(bytes@, pos as int);
    }
    let keyword = skip_spaces(bytes, pos);
    if !at_keyword(bytes, keyword, &WHERE) {
        return None;
    }
    proof {
        lemma_keyword_cut(bytes@, keyword as int, WHERE@);
        lemma_spaces_end(bytes@, keyword + 5);
        lemma_identifier_cuts(bytes@, spaces_end(bytes@, keyword + 5));
    }
    let (start, end, next) = match identifier_at(bytes, skip_spaces(bytes, keyword + 5)) {
        Some(found) => found,
        None => {
            return None;
        },
    };
    proof {
        lemma_spaces_end(bytes@, next as int);
    }
    let sign = skip_spaces(bytes, next);
    if sign >= len || bytes[sign] != 0x3d {
        return None;
    }
    proof {
        lemma_cut_after_ascii(bytes@, sign as int);
        lemma_spaces_end(bytes@, sign + 1);
    }
    let open = skip_spaces(bytes, sign + 1);
    if open >= len || bytes[open] != 0x27 {
        return None;
    }
    proof {
        lemma_cut_after_ascii(bytes@, open as int);
        lemma_quote_end(bytes@, open + 1);
    }
    let close = skip_to_quote(bytes, open + 1);
    if close >= len {
        return None;
    }
    proof {
        lemma_spaces_end(bytes@, close + 1);
    }
    let after = skip_spaces(bytes, close + 1);
    let clause = WhereClause {
        column: slice_str(input, start, end).to_owned(),
        operator: Comparator::Eq,
        value: slice_str(input, open + 1, close).to_owned(),
    };
    Some((clause, after))
}

/// Reads the `WHERE` clause that starts `input`: the input that follows it,
/// and the clause.
///
/// Fails with `Syntax` where `input` starts with no `WHERE` clause of the
/// accepted form.
pub fn parse_where(input: &str) -> (r: Result<(&str, WhereClause), Error>)
    ensures
        match spec_where(input.spec_bytes(), 0) {
            Some((clause, next)) => r matches Ok((rest, c)) && c@ == clause && rest@ == text_of(
                input.spec_bytes(),
                next,
                input.spec_bytes().len() as int,
            ),
            None => r matches Err(e) && e == Error::Syntax,
        },
{
    proof {
        vstd::utf8::encode_utf8_valid_utf8(input@);
        vstd::utf8::is_char_boundary_start_end_of_seq(input.spec_bytes());
    }
    match where_at(input, 0) {
        Some((clause, next)) => Ok((slice_str(input, next, input.as_bytes().len()), clause)),
        None => Err(Error::Syntax),
    }
}

/// A run of white space ends at or after its start, within the input.
pub proof fn lemma_spaces_range(bytes: Seq<u8>, pos: int)
    requires
        0 <= pos <= bytes.len(),
    ensures
        pos <= spaces_end(bytes, pos) <= bytes.len(),
    decreases bytes.len() - pos,
{
    if pos < bytes.len() && is_space(bytes[pos]) {
        lemma_spaces_range(bytes, pos + 1);
    }
}

/// A run of identifier bytes ends at or after its start, within the input.
pub proof fn lemma_word_range(bytes: Seq<u8>, pos: int, quoted: bool)
    requires
        0 <= pos <= bytes.len(),
    ensures
        pos <= word_end(bytes, pos, quoted) <= bytes.len(),
    decreases bytes.len() - pos,
{
    if pos < bytes.len() && (is_word_byte(bytes[pos]) || (quoted && bytes[pos] == 0x20)) {
        lemma_word_range(bytes, pos + 1, quoted);
    }
}

/// An identifier has at least one byte and lies within the input.
pub proof fn lemma_identifier_range(bytes: Seq<u8>, pos: int)
    requires
        0 <= pos <= bytes.len(),
    ensures
        spec_identifier(bytes, pos) matches Some((start, end, next)) ==> pos <= start < end
            <= next <= bytes.len(),
{
    lemma_word_range(bytes, pos, false);
    if pos < bytes.len() {
        lemma_word_range(bytes, pos + 1, true);
    }
}

/// The texts of a list of strings.
pub open spec fn texts(list: Seq<&str>) -> Seq<Seq<char>> {
    Seq::new(list.len(), |i: int| list[i]@)
}

/// The identifiers that follow the one that ends at `pos`, each after a
/// comma, with any white space around the comma, after those in `acc`; and
/// where the input goes on after the last of them. A comma that no
/// identifier follows is not part of the list.
pub open spec fn spec_more_columns(bytes: Seq<u8>, pos: int, acc: Seq<Seq<char>>) -> (
    Seq<Seq<char>>,
    int,
)
    decreases bytes.len() - pos,
{
    let comma = spaces_end(bytes, pos);
    if 0 <= pos <= bytes.len() && comma < bytes.len() && bytes[comma] == 0x2c {
        match spec_identifier(bytes, spaces_end(bytes, comma + 1)) {
            Some((start, end, next)) => {
                proof {
                    lemma_spaces_range(bytes, pos);
                    lemma_spaces_range(bytes, comma + 1);
                    lemma_identifier_range(bytes, spaces_end(bytes, comma + 1));
                }
                spec_more_columns(bytes, next, acc.push(text_of(bytes, start, end)))
            },
            None => (acc, pos),
        }
    } else {
        (acc, pos)
    }
}

/// What a `SELECT` statement says: the columns it names, which are the one
/// text `count(*)` where it counts; the table; the `WHERE` clause where it
/// has one; and where the input goes on after the statement.
pub struct SelectModel {
    pub columns: Seq<Seq<char>>,
    pub table: Seq<char>,
    pub filter: Option<WhereModel>,
    pub next: int,
}

/// The projection at `pos`: `count(*)`, or a list of identifiers with commas
/// between them; and where the input goes on after it.
pub open spec fn spec_projection(bytes: Seq<u8>, pos: int) -> Option<(Seq<Seq<char>>, int)> {
    if has_keyword(bytes, pos, COUNT_ALL@) {
        Some((seq![text_of(bytes, pos, pos + 8)], pos + 8))
    } else {
        match spec_identifier(bytes, pos) {
            None => None,
            Some((start, end, next)) => Some(
                spec_more_columns(bytes, next, seq![text_of(bytes, start, end)]),
            ),
        }
    }
}

/// The `SELECT` statement that starts `bytes`: the key word, a projection,
/// the key word `from` and an identifier, with any white space before each,
/// and then a `WHERE` clause where one follows.
pub open spec fn spec_select(bytes: Seq<u8>) -> Option<SelectModel> {
    let keyword = spaces_end(bytes, 0);
    if has_keyword(bytes, keyword, SELECT@) {
        match spec_projection(bytes, spaces_end(bytes, keyword + 6)) {
            None => None,
            Some((columns, after)) => {
                let from = spaces_end(bytes, after);
                if has_keyword(bytes, from, FROM@) {
                    match spec_identifier(bytes, spaces_end(bytes, from + 4)) {
                        None => None,
                        Some((start, end, next)) => Some(
                            match spec_where(bytes, next) {
                                Some((clause, after_clause)) => SelectModel {
                                    columns,
                                    table: text_of(bytes, start, end),
                                    filter: Some(clause),
                                    next: after_clause,
                                },
                                None => SelectModel {
                                    columns,
                                    table: text_of(bytes, start, end),
                                    filter: None,
                                    next,
                                },
                            },
                        ),
                    }
                } else {
                    None
                }
            },
        }
    } else {
        None
    }
}

/// Reads the projection at byte `pos` of `input`.
fn projection_at<'a>(input: &'a str, pos: usize) -> (r: Option<(Vec<&'a str>, usize)>)
    requires
        cut_point(input.spec_bytes(), pos as int),
    ensures
        match spec_projection(input.spec_bytes(), pos as int) {
            Some((columns, next)) => r matches Some((c, n)) && texts(c@) == columns && n == next
                && cut_point(input.spec_bytes(), next),
            None => r.is_none(),
        },
{
    let bytes = input.as_bytes();
    let len = bytes.len();
    proof {
        vstd::utf8::encode_utf8_valid_utf8(input@);
    }
    let mut columns: Vec<&'a str> = Vec::new();
    if at_keyword(bytes, pos, &COUNT_ALL) {
        proof {
            lemma_keyword_cut(bytes@, pos as int, COUNT_ALL@);
        }
        let text = slice_str(input, pos, pos + 8);
        columns.push(text);
        assert(texts(columns@) =~= seq![text@]);
        return Some((columns, pos + 8));
    }
    proof {
        lemma_identifier_cuts(bytes@, pos as int);
    }
    let (start, end, next) = match identifier_at(bytes, pos) {
        Some(found) => found,
        None => {
            return None;
        },
    };
    let first = slice_str(input, start, end);
    columns.push(first);
    assert(texts(columns@) =~= seq![first@]);
    let mut at: usize = next;
    loop
        invariant
            len == bytes@.len(),
            bytes@ == input.spec_bytes(),
            valid_utf8(bytes@),
            cut_point(bytes@, at as int),
            spec_projection(bytes@, pos as int) == Some(
                spec_more_columns(bytes@, at as int, texts(columns@)),
            ),
        ensures
            spec_projection(bytes@, pos as int) == Some((texts(columns@), at as int)),
            cut_point(bytes@, at as int),
        decreases len - at,
    {
        proof {
            lemma_spaces_end(bytes@, at as int);
        }
        let comma = skip_spaces(bytes, at);
        if comma >= len || bytes[comma] != 0x2c {
            break;
        }
        proof {
            lemma_cut_after_ascii(bytes@, comma as int);
            lemma_spaces_end(bytes@, comma + 1);
            lemma_identifier_cuts(bytes@, spaces_end(bytes@, comma + 1));
        }
        let (start, end, next) = match identifier_at(bytes, skip_spaces(bytes, comma + 1)) {
            Some(found) => found,
            None => {
                break;
            },
        };
        let ghost before = texts(columns@);
        let name = slice_str(input, start, end);
        columns.push(name);
        assert(texts(columns@) =~= before.push(name@));
        at = next;
    }
    Some((columns, at))
}

/// Reads the `SELECT` statement that starts `input`: the input that follows
/// it, and the columns, the table and the `WHERE` clause of the statement.
/// A statement that counts has the one column `count(*)`, as it is written.
///
/// Fails with `Syntax` where `input` starts with no statement of the
/// accepted form. A `WHERE` clause that is not of the accepted form is left
/// in the input that follows.
pub fn parse_select(input: &str) -> (r: Result<
    (&str, (Vec<&str>, &str, Option<WhereClause>)),
    Error,
>)
    ensures
        match spec_select(input.spec_bytes()) {
            Some(statement) => r matches Ok((rest, (columns, table, filter))) && texts(columns@)
                == statement.columns && table@ == statement.table && match statement.filter {
                Some(clause) => filter matches Some(f) && f@ == clause,
                None => filter.is_none(),
            } && rest@ == text_of(
                input.spec_bytes(),
                statement.next,
                input.spec_bytes().len() as int,
            ) && rest.spec_bytes() == input.spec_bytes().subrange(
                statement.next,
                input.spec_bytes().len() as int,
            ),
            None => r matches Err(e) && e == Error::Syntax,
        },
{
    let bytes = input.as_bytes();
    let len = bytes.len();
    proof {
        vstd::utf8::encode_utf8_valid_utf8(input@);
        vstd::utf8::is_char_boundary_start_end_of_seq(bytes@);
        lemma_spaces_end(bytes@, 0);
    }
    let keyword = skip_spaces(bytes, 0);
    if !at_keyword(bytes, keyword, &SELECT) {
        return Err(Error::Syntax);
    }
    proof {
        lemma_keyword_cut(bytes@, keyword as int, SELECT@);
        lemma_spaces_end(bytes@, keyword + 6);
    }
    let (columns, after) = match projection_at(input, skip_spaces(bytes, keyword + 6)) {
        Some(found) => found,
        None => {
            return Err(Error::Syntax);
        },
    };
    proof {
        lemma_spaces_end(bytes@, after as int);
    }
    let from = skip_spaces(bytes, after);
    if !at_keyword(bytes, from, &FROM) {
        return Err(Error::Syntax);
    }
    proof {
        lemma_keyword_cut(bytes@, from as int, FROM@);
        lemma_spaces_end(bytes@, from + 4);
        lemma_identifier_cuts(bytes@, spaces_end(bytes@, from + 4));
    }
    let (start, end, next) = match identifier_at(bytes, skip_spaces(bytes, from + 4)) {
        Some(found) => found,
        None => {
            return Err(Error::Syntax);
        },
    };
    let table = slice_str(input, start, end);
    match where_at(input, next) {
        Some((clause, after_clause)) => Ok(
            (slice_str(input, after_clause, len), (columns, table, Some(clause))),
        ),
        None => Ok((slice_str(input, next, len), (columns, table, None))),
    }
}

/// A column of a table, as the statement that created the table defines it.
#[derive(Debug, PartialEq, Clone)]
pub struct ColumnDef {
    pub name: String,
    pub modifiers: String,
    /// Whether the column is the integer primary key, which stands for the
    /// row id.
    pub ipk: bool,
}

/// What a column definition says, over mathematical sequences.
pub struct ColumnModel {
    pub name: Seq<char>,
    pub modifiers: Seq<char>,
    pub ipk: bool,
}

impl DeepView for ColumnDef {
    type V = ColumnModel;

    open spec fn deep_view(&self) -> ColumnModel {
        ColumnModel { name: self.name@, modifiers: self.modifiers@, ipk: self.ipk }
    }
}

impl View for ColumnDef {
    type V = ColumnModel;

    open spec fn view(&self) -> ColumnModel {
        self.deep_view()
    }
}

impl ColumnDef {
    /// The column of this name and these modifiers, given the outcome of
    /// matching the modifiers against the pattern of an integer primary key:
    /// the column is one where the pattern matched.
    pub fn new(name: String, modifiers: String, matched: Option<bool>) -> (r: ColumnDef)
        ensures
            r@ == (ColumnModel {
                name: name@,
                modifiers: modifiers@,
                ipk: matched == Some(true),
            }),
    {
        let ipk = match matched {
            Some(true) => true,
            _ => false,
        };
        ColumnDef { name, modifiers, ipk }
    }
}

/// The identifiers from `pos` on, each with any white space before and after
/// it, after those in `acc`; and where the input goes on after them.
pub open spec fn spec_words(bytes: Seq<u8>, pos: int, acc: Seq<Seq<char>>) -> (
    Seq<Seq<char>>,
    int,
)
    decreases bytes.len() - pos,
{
    if 0 <= pos <= bytes.len() {
        match spec_identifier(bytes, spaces_end(bytes, pos)) {
            Some((start, end, next)) => {
                proof {
                    lemma_spaces_range(bytes, pos);
                    lemma_identifier_range(bytes, spaces_end(bytes, pos));
                    lemma_spaces_range(bytes, next);
                }
                spec_words(bytes, spaces_end(bytes, next), acc.push(text_of(bytes, start, end)))
            },
            None => (acc, pos),
        }
    } else {
        (acc, pos)
    }
}

/// The words from index `from` on, with one space between each two.
pub open spec fn joined(words: Seq<Seq<char>>, from: int, upto: int) -> Seq<char>
    decreases upto - from,
{
    if upto <= from {
        Seq::empty()
    } else if upto == from + 1 {
        words[from]
    } else {
        joined(words, from, upto - 1) + seq![' '] + words[upto - 1]
    }
}

/// The pattern of an integer primary key: the three words, in any case.
pub open spec fn ipk_pattern() -> Seq<char> {
    "(?i)integer primary key"@
}

/// The column that a definition of these words defines: the first word is
/// its name, the others are its modifiers, and it is the integer primary key
/// where the modifiers hold `integer primary key`, in any case, as the
/// regular expression of that text decides it.
pub open spec fn column_of(words: Seq<Seq<char>>) -> ColumnModel {
    let modifiers = joined(words, 1, words.len() as int);
    ColumnModel {
        name: words[0],
        modifiers,
        ipk: regex_search(ipk_pattern(), modifiers) == Some(true),
    }
}

/// The column definitions from `pos` on, with commas between them, after
/// those in `acc`; and where the input goes on after them. Each definition
/// is one identifier or more.
pub open spec fn spec_column_defs(bytes: Seq<u8>, pos: int, acc: Seq<ColumnModel>) -> Option<
    (Seq<ColumnModel>, int),
>
    decreases bytes.len() - pos,
{
    let (words, after) = spec_words(bytes, pos, Seq::empty());
    if words.len() == 0 || !(0 <= pos <= after) {
        None
    } else if after < bytes.len() && bytes[after] == 0x2c {
        spec_column_defs(bytes, after + 1, acc.push(column_of(words)))
    } else {
        Some((acc.push(column_of(words)), after))
    }
}

/// The columns that the `CREATE TABLE` statement at the start of `bytes`
/// defines, and where the input goes on after the statement: the key words,
/// the name of the table, which may stand between double quotes, and the
/// column definitions in parentheses, with any white space between them.
pub open spec fn spec_create_table(bytes: Seq<u8>) -> Option<(Seq<ColumnModel>, int)> {
    let keyword = spaces_end(bytes, 0);
    if has_keyword(bytes, keyword, CREATE_TABLE@) {
        let quote = spaces_end(bytes, keyword + 12);
        let name = if quote < bytes.len() && bytes[quote] == 0x22 {
            quote + 1
        } else {
            quote
        };
        match spec_identifier(bytes, name) {
            None => None,
            Some((_, _, next)) => {
                let closed = if next < bytes.len() && bytes[next] == 0x22 {
                    next + 1
                } else {
                    next
                };
                let open = spaces_end(bytes, closed);
                if open < bytes.len() && bytes[open] == 0x28 {
                    match spec_column_defs(bytes, open + 1, Seq::empty()) {
                        None => None,
                        Some((columns, close)) => {
                            if close < bytes.len() && bytes[close] == 0x29 {
                                Some((columns, spaces_end(bytes, close + 1)))
                            } else {
                                None
                            }
                        },
                    }
                } else {
                    None
                }
            },
        }
    } else {
        None
    }
}

/// Reads the identifiers from byte `pos` of `input` on.
fn words_at<'a>(input: &'a str, pos: usize) -> (r: (Vec<&'a str>, usize))
    requires
        cut_point(input.spec_bytes(), pos as int),
    ensures
        (texts(r.0@), r.1 as int) == spec_words(input.spec_bytes(), pos as int, Seq::empty()),
        pos <= r.1 <= input.spec_bytes().len(),
        cut_point(input.spec_bytes(), r.1 as int),
{
    let bytes = input.as_bytes();
    proof {
        vstd::utf8::encode_utf8_valid_utf8(input@);
    }
    assert(bytes.len() == bytes@.len());
    let mut words: Vec<&'a str> = Vec::new();
    let mut at: usize = pos;
    assert(texts(words@) =~= Seq::empty());
    loop
        invariant
            bytes@ == input.spec_bytes(),
            valid_utf8(bytes@),
            bytes@.len() <= usize::MAX,
            pos <= at <= bytes@.len(),
            cut_point(bytes@, at as int),
            spec_words(bytes@, pos as int, Seq::empty()) == spec_words(
                bytes@,
                at as int,
                texts(words@),
            ),
        ensures
            spec_words(bytes@, pos as int, Seq::empty()) == (texts(words@), at as int),
            pos <= at <= bytes@.len(),
            cut_point(bytes@, at as int),
        decreases bytes@.len() - at,
    {
        proof {
            lemma_spaces_end(bytes@, at as int);
            lemma_identifier_cuts(bytes@, spaces_end(bytes@, at as int));
        }
        let (start, end, next) = match identifier_at(bytes, skip_spaces(bytes, at)) {
            Some(found) => found,
            None => {
                break;
            },
        };
        proof {
            lemma_spaces_end(bytes@, next as int);
        }
        let ghost before = texts(words@);
        let word = slice_str(input, start, end);
        words.push(word);
        assert(texts(words@) =~= before.push(word@));
        at = skip_spaces(bytes, next);
    }
    (words, at)
}

/// Reads the identifiers that start `input`, each with any white space
/// before and after it: the input that follows them, and their texts.
pub fn identifiers(input: &str) -> (r: (&str, Vec<&str>))
    ensures
        (texts(r.1@), r.0@) == ({
            let (words, next) = spec_words(input.spec_bytes(), 0, Seq::empty());
            (words, text_of(input.spec_bytes(), next, input.spec_bytes().len() as int))
        }),
{
    proof {
        vstd::utf8::encode_utf8_valid_utf8(input@);
        vstd::utf8::is_char_boundary_start_end_of_seq(input.spec_bytes());
    }
    let (words, next) = words_at(input, 0);
    (slice_str(input, next, input.as_bytes().len()), words)
}

/// The words from index 1 on, with one space between each two.
fn join_modifiers(words: &Vec<&str>) -> (r: String)
    ensures
        r@ == joined(texts(words@), 1, words@.len() as int),
{
    let mut out = String::new();
    let mut i: usize = 1;
    while i < words.len()
        invariant
            1 <= i,
            i <= words.len() || (words.len() == 0 && i == 1),
            out@ == joined(texts(words@), 1, i as int),
        decreases words.len() - i,
    {
        if i > 1 {
            proof {
                reveal_strlit(" ");
                assert(" "@ =~= seq![' ']);
            }
            out.append(" ");
        }
        out.append(words[i]);
        assert(texts(words@)[i as int] == words@[i as int]@);
        i += 1;
    }
    proof {
        if words.len() == 0 {
            assert(joined(texts(words@), 1, 0) =~= joined(texts(words@), 1, 1));
        }
    }
    out
}

/// Reads the column definitions from byte `pos` of `input` on.
fn column_defs_at(input: &str, pos: usize) -> (r: Option<(Vec<ColumnDef>, usize)>)
    requires
        cut_point(input.spec_bytes(), pos as int),
    ensures
        match spec_column_defs(input.spec_bytes(), pos as int, Seq::empty()) {
            Some((columns, next)) => r matches Some((c, n)) && c.deep_view() == columns && n
                == next && n <= input.spec_bytes().len() && cut_point(input.spec_bytes(), next),
            None => r.is_none(),
        },
{
    let bytes = input.as_bytes();
    let len = bytes.len();
    proof {
        vstd::utf8::encode_utf8_valid_utf8(input@);
    }
    let mut columns: Vec<ColumnDef> = Vec::new();
    let mut at: usize = pos;
    assert(columns.deep_view() =~= Seq::empty());
    loop
        invariant
            len == bytes@.len(),
            bytes@ == input.spec_bytes(),
            valid_utf8(bytes@),
            at <= len,
            cut_point(bytes@, at as int),
            spec_column_defs(bytes@, pos as int, Seq::empty()) == spec_column_defs(
                bytes@,
                at as int,
                columns.deep_view(),
            ),
        decreases len - at,
    {
        let (words, after) = words_at(input, at);
        if words.len() == 0 {
            return None;
        }
        assert(texts(words@)[0] == words@[0]@);
        let modifiers = join_modifiers(&words);
        let matched = regex_is_match("(?i)integer primary key", modifiers.as_str());
        let column = ColumnDef::new(words[0].to_owned(), modifiers, matched);
        let ghost before = columns.deep_view();
        columns.push(column);
        assert(columns.deep_view() =~= before.push(column@));
        if after < len && bytes[after] == 0x2c {
            proof {
                lemma_cut_after_ascii(bytes@, after as int);
            }
            at = after + 1;
        } else {
            return Some((columns, after));
        }
    }
}

/// Reads the column definitions that start `input`: definitions of one
/// identifier or more each, with commas between them. The input that
/// follows them, and the columns that they define, in order.
///
/// Fails with `Syntax` where a definition has no identifier.
pub fn parse_column_list(input: &str) -> (r: Result<(&str, Vec<ColumnDef>), Error>)
    ensures
        match spec_column_defs(input.spec_bytes(), 0, Seq::empty()) {
            Some((columns, next)) => r matches Ok((rest, c)) && c.deep_view() == columns && rest@
                == text_of(input.spec_bytes(), next, input.spec_bytes().len() as int),
            None => r matches Err(e) && e == Error::Syntax,
        },
{
    proof {
        vstd::utf8::encode_utf8_valid_utf8(input@);
        vstd::utf8::is_char_boundary_start_end_of_seq(input.spec_bytes());
    }
    match column_defs_at(input, 0) {
        Some((columns, next)) => Ok((slice_str(input, next, input.as_bytes().len()), columns)),
        None => Err(Error::Syntax),
    }
}

/// Reads the `CREATE TABLE` statement that starts `input`: the input that
/// follows it, and the columns that it defines, in order.
///
/// Fails with `Syntax` where `input` starts with no statement of the
/// accepted form.
pub fn parse_create_table(input: &str) -> (r: Result<(&str, Vec<ColumnDef>), Error>)
    ensures
        match spec_create_table(input.spec_bytes()) {
            Some((columns, next)) => r matches Ok((rest, c)) && c.deep_view() == columns && rest@
                == text_of(input.spec_bytes(), next, input.spec_bytes().len() as int),
            None => r matches Err(e) && e == Error::Syntax,
        },
{
    let bytes = input.as_bytes();
    let len = bytes.len();
    proof {
        vstd::utf8::encode_utf8_valid_utf8(input@);
        vstd::utf8::is_char_boundary_start_end_of_seq(bytes@);
        lemma_spaces_end(bytes@, 0);
    }
    let keyword = skip_spaces(bytes, 0);
    if !at_keyword(bytes, keyword, &CREATE_TABLE) {
        return Err(Error::Syntax);
    }
    proof {
        lemma_keyword_cut(bytes@, keyword as int, CREATE_TABLE@);
        lemma_spaces_end(bytes@, keyword + 12);
    }
    let quote = skip_spaces(bytes, keyword + 12);
    let name = if quote < len && bytes[quote] == 0x22 {
        proof {
            lemma_cut_after_ascii(bytes@, quote as int);
        }
        quote + 1
    } else {
        quote
    };
    proof {
        lemma_identifier_cuts(bytes@, name as int);
    }
    let next = match identifier_at(bytes, name) {
        Some((_, _, next)) => next,
        None => {
            return Err(Error::Syntax);
        },
    };
    let closed = if next < len && bytes[next] == 0x22 {
        proof {
            lemma_cut_after_ascii(bytes@, next as int);
        }
        next + 1
    } else {
        next
    };
    proof {
        lemma_spaces_end(bytes@, closed as int);
    }
    let open = skip_spaces(bytes, closed);
    if open >= len || bytes[open] != 0x28 {
        return Err(Error::Syntax);
    }
    proof {
        lemma_cut_after_ascii(bytes@, open as int);
    }
    let (columns, close) = match column_defs_at(input, open + 1) {
        Some(found) => found,
        None => {
            return Err(Error::Syntax);
        },
    };
    if close >= len || bytes[close] != 0x29 {
        return Err(Error::Syntax);
    }
    proof {
        lemma_cut_after_ascii(bytes@, close as int);
        lemma_spaces_end(bytes@, close + 1);
    }
    let after = skip_spaces(bytes, close + 1);
    Ok((slice_str(input, after, len), columns))
}

} // verus!
