//! Parsing formulas in conjunctive normal form from DIMACS text.
use vstd::prelude::*;
use std::collections::HashMap;
use std::num::ParseIntError;
use crate::variable_ordering::{force, total_literals, occurs, copy_terms, force_rounds, lemma_force_rounds_same};

verus! {

broadcast use vstd::std_specs::hash::group_hash_axioms;

#[verifier::external_type_specification]
#[verifier::external_body]
pub struct ExParseIntError(ParseIntError);

/// Errors on reading DIMACS text.
#[derive(Debug, PartialEq, Eq)]
pub enum DataFormatError {
    InvalidNumber(ParseIntError),
    MultipleHeaders,
    NonAscendingVariables,
    MissingHeader,
    InvalidHeaderFormat,
    InvalidHeaderData(HeaderDataType),
}

/// Which number of the header does not match the formula.
#[derive(Debug, PartialEq, Eq, Structural)]
pub enum HeaderDataType {
    VariableCount,
    TermCount,
}

/// A formula in conjunctive normal form with a variable order.
#[derive(Debug, PartialEq, Eq, Clone)]
pub struct Cnf {
    pub varibale_count: u32,
    pub term_count: u32,
    pub terms: Vec<Vec<i32>>,
    pub order: Vec<i32>,
}

/// Which checks of the parser are switched off.
#[derive(Debug, PartialEq, Eq, Structural)]
pub struct ParserSettings {
    pub ignore_header: bool,
    pub ignore_variable_count: bool,
    pub ignore_term_count: bool,
    pub ignore_ascending_variables: bool,
}

impl Default for ParserSettings {
    fn default() -> (r: Self)
        ensures
            !r.ignore_header && !r.ignore_variable_count && !r.ignore_term_count
                && !r.ignore_ascending_variables,
    {
        Self {
            ignore_header: false,
            ignore_variable_count: false,
            ignore_term_count: false,
            ignore_ascending_variables: false,
        }
    }
}

/// `ToString::to_string` of std on a parse error: the text of its `Display` form.
#[verifier::external_body]
pub(crate) fn parse_error_text(e: &ParseIntError) -> String {
    e.to_string()
}

impl HeaderDataType {
    /// The text describing the mismatch.
    pub fn message(&self) -> (r: String)
        ensures
            self is VariableCount ==> r@ == "Wrong number of variables."@,
            self is TermCount ==> r@ == "Wrong number of terms."@,
    {
        match self {
            HeaderDataType::VariableCount => String::from_str("Wrong number of variables."),
            HeaderDataType::TermCount => String::from_str("Wrong number of terms."),
        }
    }
}

impl DataFormatError {
    /// The text describing the error.
    pub fn message(&self) -> (r: String)
        ensures
            self is MultipleHeaders ==> r@ == "File contains more than one headers."@,
            self is NonAscendingVariables ==> r@ == "Variables are not in ascending order."@,
            self is MissingHeader ==> r@ == "File is missing a header."@,
            self is InvalidHeaderFormat ==> r@ == "File contains a malformed header."@,
            self matches DataFormatError::InvalidHeaderData(t) ==> r@ == "Data in given header is invalid: "@
                + (if t is VariableCount { "Wrong number of variables."@ } else { "Wrong number of terms."@ }),
            self is InvalidNumber ==> "Non-number out of comment line: "@.is_prefix_of(r@),
    {
        match self {
            DataFormatError::InvalidHeaderData(t) => {
                let m = t.message();
                String::from_str("Data in given header is invalid: ").concat(m.as_str())
            },
            DataFormatError::InvalidNumber(e) => {
                let m = parse_error_text(e);
                let r = String::from_str("Non-number out of comment line: ").concat(m.as_str());
                proof {
                    assert(r@.subrange(0, "Non-number out of comment line: "@.len() as int) =~= "Non-number out of comment line: "@);
                }
                r
            },
            DataFormatError::MultipleHeaders => String::from_str("File contains more than one headers."),
            DataFormatError::NonAscendingVariables => String::from_str("Variables are not in ascending order."),
            DataFormatError::MissingHeader => String::from_str("File is missing a header."),
            DataFormatError::InvalidHeaderFormat => String::from_str("File contains a malformed header."),
        }
    }
}

// ----------------------------------------------------------------------------------------
// Numbers

/// The value of a sequence of decimal digits.
pub open spec fn digits_value(s: Seq<char>) -> int
    decreases s.len(),
{
    if s.len() == 0 {
        0
    } else {
        digits_value(s.drop_last()) * 10 + (s.last() as int - '0' as int)
    }
}

pub open spec fn all_digits(s: Seq<char>) -> bool {
    forall|i: int| 0 <= i < s.len() ==> '0' <= #[trigger] s[i] <= '9'
}

/// The digits of a number, after its sign.
pub open spec fn unsigned_part(s: Seq<char>) -> Seq<char> {
    if s.len() > 0 && (s[0] == '-' || s[0] == '+') {
        s.drop_first()
    } else {
        s
    }
}

/// The value of an optionally signed decimal number.
pub open spec fn literal_value(s: Seq<char>) -> int {
    if s.len() > 0 && s[0] == '-' {
        -digits_value(s.drop_first())
    } else {
        digits_value(unsigned_part(s))
    }
}

/// An optional sign followed by at least one decimal digit, of a value that fits an `i32`.
pub open spec fn valid_i32_literal(s: Seq<char>) -> bool {
    &&& unsigned_part(s).len() > 0
    &&& all_digits(unsigned_part(s))
    &&& i32::MIN <= literal_value(s) <= i32::MAX
}

/// `str::parse::<i32>` of std on the text of a token. Its documentation: the text is an
/// optional `+` or `-` sign followed by decimal digits only, and the value fits an `i32`;
/// anything else is an error.
#[verifier::external_body]
pub(crate) fn parse_i32(token: &Vec<char>) -> (r: Result<i32, ParseIntError>)
    ensures
        r is Ok <==> valid_i32_literal(token@),
        r matches Ok(n) ==> n == literal_value(token@),
{
    let s: String = token.iter().collect();
    s.parse::<i32>()
}

// ----------------------------------------------------------------------------------------
// Lines and words

/// The characters `char::is_whitespace` accepts: those with the Unicode White_Space property.
pub open spec fn is_ws(c: char) -> bool {
    c == ' ' || c == '\t' || c == '\n' || c == '\x0B' || c == '\x0C' || c == '\r' || c == '\u{85}'
        || c == '\u{A0}' || c == '\u{1680}' || ('\u{2000}' <= c && c <= '\u{200A}') || c == '\u{2028}'
        || c == '\u{2029}' || c == '\u{202F}' || c == '\u{205F}' || c == '\u{3000}'
}

pub(crate) fn is_whitespace(c: char) -> (r: bool)
    ensures
        r == is_ws(c),
{
    c == ' ' || c == '\t' || c == '\n' || c == '\x0B' || c == '\x0C' || c == '\r' || c == '\u{85}'
        || c == '\u{A0}' || c == '\u{1680}' || ('\u{2000}' <= c && c <= '\u{200A}') || c == '\u{2028}'
        || c == '\u{2029}' || c == '\u{202F}' || c == '\u{205F}' || c == '\u{3000}'
}

/// The lines of a text: the pieces between its newline characters.
pub open spec fn split_lines(s: Seq<char>) -> Seq<Seq<char>>
    decreases s.len(),
{
    if s.len() == 0 {
        seq![Seq::empty()]
    } else {
        let ls = split_lines(s.drop_last());
        if s.last() == '\n' {
            ls.push(Seq::empty())
        } else {
            ls.update(ls.len() - 1, ls.last().push(s.last()))
        }
    }
}

pub proof fn lemma_split_lines_len(s: Seq<char>)
    ensures
        split_lines(s).len() >= 1,
    decreases s.len(),
{
    if s.len() > 0 {
        lemma_split_lines_len(s.drop_last());
    }
}

pub open spec fn starts_with(l: Seq<char>, c: char) -> bool {
    l.len() > 0 && l[0] == c
}

/// A header line starts with `p`.
pub open spec fn is_header(l: Seq<char>) -> bool {
    starts_with(l, 'p')
}

/// A line holding clauses: neither header nor comment (`c`).
pub open spec fn is_body(l: Seq<char>) -> bool {
    !starts_with(l, 'p') && !starts_with(l, 'c')
}

/// The header lines, in their order.
pub open spec fn header_filter(ls: Seq<Seq<char>>) -> Seq<Seq<char>>
    decreases ls.len(),
{
    if ls.len() == 0 {
        Seq::empty()
    } else {
        let r = header_filter(ls.drop_last());
        if is_header(ls.last()) {
            r.push(ls.last())
        } else {
            r
        }
    }
}

/// The clause lines, each followed by a space, concatenated.
pub open spec fn body_join(ls: Seq<Seq<char>>) -> Seq<char>
    decreases ls.len(),
{
    if ls.len() == 0 {
        Seq::empty()
    } else {
        let r = body_join(ls.drop_last());
        if is_body(ls.last()) {
            r + ls.last() + seq![' ']
        } else {
            r
        }
    }
}

/// Splitting on whitespace: the words completed so far and the word being read.
pub open spec fn words_state(s: Seq<char>) -> (Seq<Seq<char>>, Seq<char>)
    decreases s.len(),
{
    if s.len() == 0 {
        (Seq::empty(), Seq::empty())
    } else {
        let (ws, cur) = words_state(s.drop_last());
        if is_ws(s.last()) {
            if cur.len() > 0 {
                (ws.push(cur), Seq::empty())
            } else {
                (ws, Seq::empty())
            }
        } else {
            (ws, cur.push(s.last()))
        }
    }
}

/// The maximal runs of non-whitespace characters (`str::split_whitespace`).
pub open spec fn words(s: Seq<char>) -> Seq<Seq<char>> {
    let (ws, cur) = words_state(s);
    if cur.len() > 0 {
        ws.push(cur)
    } else {
        ws
    }
}

/// A vector of character vectors holding the given sequences.
pub open spec fn holds_seqs<T>(v: Seq<Vec<T>>, s: Seq<Seq<T>>) -> bool {
    &&& v.len() == s.len()
    &&& forall|i: int| 0 <= i < v.len() ==> (#[trigger] v[i])@ == s[i]
}

// ----------------------------------------------------------------------------------------
// Clauses

pub open spec fn is_zero_word(w: Seq<char>) -> bool {
    w == seq!['0']
}

/// Every word that does not end a clause is a number.
pub open spec fn all_numbers(ws: Seq<Seq<char>>) -> bool {
    forall|k: int| 0 <= k < ws.len() && !is_zero_word(ws[k]) ==> #[trigger] valid_i32_literal(ws[k])
}

/// Reading the words: the clauses completed so far and the clause being read.
pub open spec fn terms_state(ws: Seq<Seq<char>>) -> (Seq<Seq<i32>>, Seq<i32>)
    decreases ws.len(),
{
    if ws.len() == 0 {
        (Seq::empty(), Seq::empty())
    } else {
        let (ts, cur) = terms_state(ws.drop_last());
        if is_zero_word(ws.last()) {
            (ts.push(cur), Seq::empty())
        } else {
            (ts, cur.push(literal_value(ws.last()) as i32))
        }
    }
}

/// The clauses of the words: each `0` ends a clause; literals after the last `0` are dropped.
pub open spec fn spec_terms(ws: Seq<Seq<char>>) -> Seq<Seq<i32>> {
    terms_state(ws).0
}

/// The words of the clause lines of a text.
pub open spec fn body_words(input: Seq<char>) -> Seq<Seq<char>> {
    words(body_join(split_lines(input)))
}

/// The clauses of a text.
pub open spec fn text_terms(input: Seq<char>) -> Seq<Seq<i32>> {
    spec_terms(body_words(input))
}

/// The variables (absolute values of the literals) of a list of clauses.
pub open spec fn term_vars(ts: Seq<Seq<i32>>) -> Set<int> {
    Set::new(|v: int| exists|i: int, t: int| 0 <= i < ts.len() && 0 <= t < ts[i].len()
        && #[trigger] abs_int(ts[i][t]) == v)
}

pub open spec fn abs_int(x: i32) -> int {
    if x < 0 { -x } else { x as int }
}

/// A set of integers without gaps.
pub open spec fn no_gaps(s: Set<int>) -> bool {
    forall|x: int, y: int, z: int| #![trigger s.contains(x), s.contains(y), s.contains(z)]
        s.contains(x) && s.contains(y) && x <= z <= y ==> s.contains(z)
}

/// What reading a text ends in.
pub enum ParseOutcome {
    Parsed,
    MultipleHeaders,
    MissingHeader,
    InvalidNumber,
    NonAscendingVariables,
    InvalidHeaderFormat,
    WrongVariableCount,
    WrongTermCount,
}

/// What checking the header line against the formula ends in.
pub open spec fn header_outcome(h: Seq<char>, var_count: int, term_count: int) -> ParseOutcome {
    let hw = words(h);
    if hw.len() < 3 {
        ParseOutcome::InvalidHeaderFormat
    } else if !valid_i32_literal(hw[2]) {
        ParseOutcome::InvalidNumber
    } else if hw.len() < 4 {
        ParseOutcome::InvalidHeaderFormat
    } else if !valid_i32_literal(hw[3]) {
        ParseOutcome::InvalidNumber
    } else if literal_value(hw[2]) != var_count as i32 {
        ParseOutcome::WrongVariableCount
    } else if literal_value(hw[3]) != term_count as i32 {
        ParseOutcome::WrongTermCount
    } else {
        ParseOutcome::Parsed
    }
}

/// What reading a text ends in: the checks in their order.
pub open spec fn parse_outcome(input: Seq<char>, settings: ParserSettings) -> ParseOutcome {
    let hs = header_filter(split_lines(input));
    let ws = body_words(input);
    let ts = spec_terms(ws);
    let vars = term_vars(ts);
    if hs.len() >= 2 {
        ParseOutcome::MultipleHeaders
    } else if hs.len() == 0 && !settings.ignore_header {
        ParseOutcome::MissingHeader
    } else if !all_numbers(ws) {
        ParseOutcome::InvalidNumber
    } else if !settings.ignore_ascending_variables && !no_gaps(vars) {
        ParseOutcome::NonAscendingVariables
    } else if !settings.ignore_header {
        header_outcome(hs[0], vars.len() as int, ts.len() as int)
    } else {
        ParseOutcome::Parsed
    }
}

/// The outcome an error reports.
pub open spec fn error_outcome(e: DataFormatError) -> ParseOutcome {
    match e {
        DataFormatError::InvalidNumber(_) => ParseOutcome::InvalidNumber,
        DataFormatError::MultipleHeaders => ParseOutcome::MultipleHeaders,
        DataFormatError::NonAscendingVariables => ParseOutcome::NonAscendingVariables,
        DataFormatError::MissingHeader => ParseOutcome::MissingHeader,
        DataFormatError::InvalidHeaderFormat => ParseOutcome::InvalidHeaderFormat,
        DataFormatError::InvalidHeaderData(HeaderDataType::VariableCount) => ParseOutcome::WrongVariableCount,
        DataFormatError::InvalidHeaderData(HeaderDataType::TermCount) => ParseOutcome::WrongTermCount,
    }
}

/// The outcome a result reports.
pub open spec fn outcome_of<T>(r: Result<T, DataFormatError>) -> ParseOutcome {
    match r {
        Ok(_) => ParseOutcome::Parsed,
        Err(e) => error_outcome(e),
    }
}

// ----------------------------------------------------------------------------------------
// Reading

/// The characters of a text.
pub(crate) fn text_chars(input: &str) -> (r: Vec<char>)
    ensures
        r@ == input@,
{
    let mut cs: Vec<char> = Vec::new();
    for c in it: input.chars()
        invariant
            cs@ == it.seq().subrange(0, it.index() as int),
    {
        cs.push(c);
    }
    cs
}

/// Appends the characters of `line` and a space to `buff`.
fn append_line(buff: &mut Vec<char>, line: &Vec<char>)
    ensures
        final(buff)@ == old(buff)@ + line@ + seq![' '],
{
    let mut t: usize = 0;
    let ghost start = buff@;
    while t < line.len()
        invariant
            t <= line@.len(),
            buff@ == start + line@.subrange(0, t as int),
        decreases line@.len() - t,
    {
        buff.push(line[t]);
        t = t + 1;
    }
    buff.push(' ');
    proof {
        assert(line@.subrange(0, line@.len() as int) =~= line@);
    }
}

/// Files a completed line: header lines are collected, clause lines appended to the buffer.
fn file_line(headers: &mut Vec<Vec<char>>, buff: &mut Vec<char>, line: Vec<char>)
    ensures
        is_header(line@) ==> final(headers)@ == old(headers)@.push(line) && final(buff)@ == old(buff)@,
        !is_header(line@) ==> final(headers)@ == old(headers)@,
        is_body(line@) ==> final(buff)@ == old(buff)@ + line@ + seq![' '],
        !is_body(line@) ==> final(buff)@ == old(buff)@,
{
    if line.len() > 0 && line[0] == 'p' {
        headers.push(line);
    } else if line.len() > 0 && line[0] == 'c' {
    } else {
        append_line(buff, &line);
    }
}

/// The header lines of a text, and its clause lines joined by spaces.
fn split_text(cs: &Vec<char>) -> (r: (Vec<Vec<char>>, Vec<char>))
    ensures
        holds_seqs(r.0@, header_filter(split_lines(cs@))),
        r.1@ == body_join(split_lines(cs@)),
{
    let mut headers: Vec<Vec<char>> = Vec::new();
    let mut buff: Vec<char> = Vec::new();
    let mut cur: Vec<char> = Vec::new();
    let mut k: usize = 0;
    while k < cs.len()
        invariant
            k <= cs@.len(),
            split_lines(cs@.subrange(0, k as int)).len() >= 1,
            holds_seqs(headers@, header_filter(split_lines(cs@.subrange(0, k as int)).drop_last())),
            buff@ == body_join(split_lines(cs@.subrange(0, k as int)).drop_last()),
            cur@ == split_lines(cs@.subrange(0, k as int)).last(),
        decreases cs@.len() - k,
    {
        let ghost ls = split_lines(cs@.subrange(0, k as int));
        proof {
            assert(cs@.subrange(0, k as int + 1).drop_last() =~= cs@.subrange(0, k as int));
            lemma_split_lines_len(cs@.subrange(0, k as int + 1));
        }
        let c = cs[k];
        if c == '\n' {
            let line = cur;
            cur = Vec::new();
            let ghost hs0 = headers@;
            file_line(&mut headers, &mut buff, line);
            proof {
                let ls2 = split_lines(cs@.subrange(0, k as int + 1));
                assert(ls2 == ls.push(Seq::empty()));
                assert(ls2.drop_last() =~= ls);
                assert(ls == ls.drop_last().push(ls.last()));
                assert(holds_seqs(headers@, header_filter(ls))) by {
                    if is_header(line@) {
                        assert forall|i: int| 0 <= i < headers@.len() implies (#[trigger] headers@[i])@ == header_filter(ls)[i] by {
                            if i < hs0.len() {
                                assert(headers@[i] == hs0[i]);
                            }
                        }
                    }
                }
            }
        } else {
            cur.push(c);
            proof {
                let ls2 = split_lines(cs@.subrange(0, k as int + 1));
                assert(ls2 == ls.update(ls.len() - 1, ls.last().push(c)));
                assert(ls2.drop_last() =~= ls.drop_last());
            }
        }
        k = k + 1;
    }
    let ghost ls = split_lines(cs@.subrange(0, k as int));
    let ghost hs0 = headers@;
    let line = cur;
    file_line(&mut headers, &mut buff, line);
    proof {
        assert(cs@.subrange(0, cs@.len() as int) =~= cs@);
        assert(ls == ls.drop_last().push(ls.last()));
        assert(holds_seqs(headers@, header_filter(ls))) by {
            if is_header(line@) {
                assert forall|i: int| 0 <= i < headers@.len() implies (#[trigger] headers@[i])@ == header_filter(ls)[i] by {
                    if i < hs0.len() {
                        assert(headers@[i] == hs0[i]);
                    }
                }
            }
        }
    }
    (headers, buff)
}

/// The words of a text (`str::split_whitespace`).
pub(crate) fn split_words(s: &Vec<char>) -> (r: Vec<Vec<char>>)
    ensures
        holds_seqs(r@, words(s@)),
{
    let mut ws: Vec<Vec<char>> = Vec::new();
    let mut cur: Vec<char> = Vec::new();
    let mut k: usize = 0;
    while k < s.len()
        invariant
            k <= s@.len(),
            holds_seqs(ws@, words_state(s@.subrange(0, k as int)).0),
            cur@ == words_state(s@.subrange(0, k as int)).1,
        decreases s@.len() - k,
    {
        proof {
            assert(s@.subrange(0, k as int + 1).drop_last() =~= s@.subrange(0, k as int));
        }
        let ghost w0 = ws@;
        let c = s[k];
        if is_whitespace(c) {
            if cur.len() > 0 {
                let word = cur;
                cur = Vec::new();
                ws.push(word);
                proof {
                    assert forall|i: int| 0 <= i < ws@.len() implies (#[trigger] ws@[i])@ == words_state(s@.subrange(0, k as int + 1)).0[i] by {
                        if i < w0.len() {
                            assert(ws@[i] == w0[i]);
                        }
                    }
                }
            }
        } else {
            cur.push(c);
        }
        k = k + 1;
    }
    proof {
        assert(s@.subrange(0, s@.len() as int) =~= s@);
    }
    if cur.len() > 0 {
        let ghost w0 = ws@;
        ws.push(cur);
        proof {
            assert forall|i: int| 0 <= i < ws@.len() implies (#[trigger] ws@[i])@ == words(s@)[i] by {
                if i < w0.len() {
                    assert(ws@[i] == w0[i]);
                }
            }
        }
    }
    ws
}

/// The word is the single digit `0`.
fn is_zero(w: &Vec<char>) -> (r: bool)
    ensures
        r == is_zero_word(w@),
{
    let r = w.len() == 1 && w[0] == '0';
    proof {
        if w@.len() == 1 && w@[0] == '0' {
            assert(w@ =~= seq!['0']);
        }
    }
    r
}

/// The number of literals of a list of clauses.
pub open spec fn literal_count(ts: Seq<Seq<i32>>) -> int
    decreases ts.len(),
{
    if ts.len() == 0 {
        0
    } else {
        literal_count(ts.drop_last()) + ts.last().len()
    }
}

/// The clauses of a list of words: each `0` ends a clause. Fails on the first word that is
/// neither `0` nor a number.
fn read_terms(ws: &Vec<Vec<char>>) -> (r: Result<Vec<Vec<i32>>, ParseIntError>)
    ensures
        r is Ok <==> all_numbers(deep_words(ws@)),
        r matches Ok(ts) ==> holds_seqs(ts@, spec_terms(deep_words(ws@))),
        r matches Ok(ts) ==> literal_count(spec_terms(deep_words(ws@))) <= ws@.len(),
{
    let ghost dw = deep_words(ws@);
    let mut terms: Vec<Vec<i32>> = Vec::new();
    let mut current: Vec<i32> = Vec::new();
    let mut k: usize = 0;
    while k < ws.len()
        invariant
            dw == deep_words(ws@),
            k <= ws@.len(),
            all_numbers(dw.subrange(0, k as int)),
            holds_seqs(terms@, terms_state(dw.subrange(0, k as int)).0),
            current@ == terms_state(dw.subrange(0, k as int)).1,
            literal_count(terms_state(dw.subrange(0, k as int)).0) + current@.len() <= k,
        decreases ws@.len() - k,
    {
        let ghost pre = dw.subrange(0, k as int);
        let ghost pre1 = dw.subrange(0, k as int + 1);
        proof {
            assert(pre1.drop_last() =~= pre);
            assert(pre1.last() == ws@[k as int]@);
        }
        let w = &ws[k];
        if !is_zero(w) {
            match parse_i32(w) {
                Ok(n) => {
                    current.push(n);
                },
                Err(e) => {
                    proof {
                        assert(!valid_i32_literal(dw[k as int]));
                    }
                    return Err(e);
                },
            }
        } else {
            let clause = current;
            current = Vec::new();
            let ghost t0 = terms@;
            terms.push(clause);
            proof {
                assert forall|i: int| 0 <= i < terms@.len() implies (#[trigger] terms@[i])@ == terms_state(pre1).0[i] by {
                    if i < t0.len() {
                        assert(terms@[i] == t0[i]);
                    }
                }
                let ts1 = terms_state(pre1).0;
                assert(ts1.drop_last() =~= terms_state(pre).0);
            }
        }
        proof {
            assert forall|j: int| 0 <= j < pre1.len() && !is_zero_word(pre1[j]) implies #[trigger] valid_i32_literal(pre1[j]) by {
                if j < k {
                    assert(pre1[j] == pre[j]);
                }
            }
        }
        k = k + 1;
    }
    proof {
        assert(dw.subrange(0, ws@.len() as int) =~= dw);
    }
    Ok(terms)
}

/// The character sequences of a vector of words.
pub open spec fn deep_words(v: Seq<Vec<char>>) -> Seq<Seq<char>> {
    Seq::new(v.len(), |i: int| v[i]@)
}

/// The integer sequences of a vector of clauses.
pub open spec fn deep_terms(v: Seq<Vec<i32>>) -> Seq<Seq<i32>> {
    Seq::new(v.len(), |i: int| v[i]@)
}

/// A variable occurs among the clauses before clause `i`, or among the first `t` literals of
/// clause `i`.
pub open spec fn seen_var(ts: Seq<Seq<i32>>, i: int, t: int, v: int) -> bool {
    (exists|a: int, b: int| 0 <= a < i && 0 <= b < ts[a].len() && #[trigger] abs_int(ts[a][b]) == v)
        || (exists|b: int| 0 <= b < t && #[trigger] abs_int(ts[i][b]) == v)
}

/// A set holding every integer from `lo` to `hi` and nothing else has no gaps, and a set
/// within `lo..=hi` that holds `lo` and `hi` has no gaps exactly when it has `hi - lo + 1`
/// elements.
proof fn lemma_no_gaps_count(s: Set<int>, lo: int, hi: int)
    requires
        lo <= hi,
        s.finite(),
        s.contains(lo),
        s.contains(hi),
        forall|x: int| #[trigger] s.contains(x) ==> lo <= x <= hi,
    ensures
        no_gaps(s) <==> s.len() == hi - lo + 1,
{
    let r = vstd::set_lib::set_int_range(lo, hi + 1);
    vstd::set_lib::lemma_int_range(lo, hi + 1);
    assert(s.subset_of(r));
    if no_gaps(s) {
        assert(s =~= r) by {
            assert forall|z: int| r.contains(z) implies s.contains(z) by {
                assert(s.contains(lo) && s.contains(hi) && lo <= z <= hi);
            }
        }
    }
    if s.len() == hi - lo + 1 {
        vstd::set_lib::lemma_subset_equality(s, r);
        assert forall|x: int, y: int, z: int| #![trigger s.contains(x), s.contains(y), s.contains(z)]
            s.contains(x) && s.contains(y) && x <= z <= y implies s.contains(z) by {
            assert(r.contains(z));
        }
    }
}

/// The number of variables of a list of clauses, and whether they form a range without gaps.
fn count_vars(ts: &Vec<Vec<i32>>) -> (r: (usize, bool))
    requires
        forall|i: int, t: int| 0 <= i < ts@.len() && 0 <= t < ts@[i]@.len() ==> #[trigger] ts@[i]@[t] != i32::MIN,
    ensures
        term_vars(deep_terms(ts@)).finite(),
        r.0 == term_vars(deep_terms(ts@)).len(),
        r.1 == no_gaps(term_vars(deep_terms(ts@))),
{
    let ghost d = deep_terms(ts@);
    let mut keys: Vec<i32> = Vec::new();
    let mut index: HashMap<i32, usize> = HashMap::new();
    let mut lo: i32 = 0;
    let mut hi: i32 = 0;
    let mut i: usize = 0;
    while i < ts.len()
        invariant
            d == deep_terms(ts@),
            i <= ts@.len(),
            forall|i: int, t: int| 0 <= i < ts@.len() && 0 <= t < ts@[i]@.len() ==> #[trigger] ts@[i]@[t] != i32::MIN,
            keys@.no_duplicates(),
            forall|p: int| 0 <= p < keys@.len() ==> #[trigger] index@.contains_key(keys@[p]) && index@[keys@[p]] == p,
            forall|v: i32| #[trigger] index@.contains_key(v) ==> index@[v] < keys@.len() && keys@[index@[v] as int] == v,
            forall|v: i32| #[trigger] keys@.contains(v) <==> v >= 0 && seen_var(d, i as int, 0, v as int),
            keys@.len() > 0 ==> keys@.contains(lo) && keys@.contains(hi),
            forall|p: int| 0 <= p < keys@.len() ==> lo <= #[trigger] keys@[p] <= hi,
        decreases ts@.len() - i,
    {
        let c = &ts[i];
        let mut t: usize = 0;
        proof {
            assert(d[i as int] == c@);
            assert forall|v: i32| #[trigger] keys@.contains(v) <==> v >= 0 && seen_var(d, i as int, t as int, v as int) by {}
        }
        while t < c.len()
            invariant
                d == deep_terms(ts@),
                i < ts@.len(),
                *c == ts@[i as int],
                d[i as int] == c@,
                t <= c@.len(),
                forall|t: int| 0 <= t < c@.len() ==> #[trigger] c@[t] != i32::MIN,
                keys@.no_duplicates(),
                forall|p: int| 0 <= p < keys@.len() ==> #[trigger] index@.contains_key(keys@[p]) && index@[keys@[p]] == p,
                forall|v: i32| #[trigger] index@.contains_key(v) ==> index@[v] < keys@.len() && keys@[index@[v] as int] == v,
                forall|v: i32| #[trigger] keys@.contains(v) <==> v >= 0 && seen_var(d, i as int, t as int, v as int),
                keys@.len() > 0 ==> keys@.contains(lo) && keys@.contains(hi),
                forall|p: int| 0 <= p < keys@.len() ==> lo <= #[trigger] keys@[p] <= hi,
            decreases c@.len() - t,
        {
            let x = c[t];
            let ax: i32 = if x < 0 { -x } else { x };
            let ghost old_keys = keys@;
            proof {
                assert(abs_int(d[i as int][t as int]) == ax);
            }
            match index.get(&ax) {
                Some(_) => {},
                None => {
                    proof {
                        assert(!keys@.contains(ax)) by {
                            if keys@.contains(ax) {
                                let p = choose|p: int| 0 <= p < keys@.len() && keys@[p] == ax;
                                assert(index@.contains_key(keys@[p]));
                            }
                        }
                    }
                    if keys.len() == 0 {
                        lo = ax;
                        hi = ax;
                    } else {
                        if ax < lo {
                            lo = ax;
                        }
                        if ax > hi {
                            hi = ax;
                        }
                    }
                    index.insert(ax, keys.len());
                    keys.push(ax);
                    proof {
                        assert(keys@[keys@.len() - 1] == ax);
                        assert forall|p: int| 0 <= p < keys@.len() implies lo <= #[trigger] keys@[p] <= hi by {
                            if p < old_keys.len() {
                                assert(keys@[p] == old_keys[p]);
                            }
                        }
                        if old_keys.len() > 0 {
                            assert(keys@.contains(lo)) by {
                                if lo != ax {
                                    let p = choose|p: int| 0 <= p < old_keys.len() && old_keys[p] == lo;
                                    assert(keys@[p] == lo);
                                }
                            }
                            assert(keys@.contains(hi)) by {
                                if hi != ax {
                                    let p = choose|p: int| 0 <= p < old_keys.len() && old_keys[p] == hi;
                                    assert(keys@[p] == hi);
                                }
                            }
                        }
                    }
                },
            }
            proof {
                assert forall|v: i32| #[trigger] keys@.contains(v) <==> v >= 0 && seen_var(d, i as int, t as int + 1, v as int) by {
                    if v == ax {
                        assert(keys@.contains(ax)) by {
                            assert(index@.contains_key(ax));
                            assert(keys@[index@[ax] as int] == ax);
                        }
                        assert(abs_int(d[i as int][t as int]) == v as int);
                    } else {
                        if keys@.contains(v) {
                            let p = choose|p: int| 0 <= p < keys@.len() && keys@[p] == v;
                            assert(p < old_keys.len());
                            assert(old_keys.contains(v));
                        }
                        if old_keys.contains(v) {
                            let p = choose|p: int| 0 <= p < old_keys.len() && old_keys[p] == v;
                            assert(keys@[p] == v);
                        }
                        if exists|b: int| 0 <= b < t + 1 && #[trigger] abs_int(d[i as int][b]) == v as int {
                            let b = choose|b: int| 0 <= b < t + 1 && #[trigger] abs_int(d[i as int][b]) == v as int;
                            assert(b < t);
                        }
                    }
                }
            }
            t = t + 1;
        }
        proof {
            assert forall|v: i32| #[trigger] keys@.contains(v) <==> v >= 0 && seen_var(d, i as int + 1, 0, v as int) by {
                if seen_var(d, i as int + 1, 0, v as int) {
                    let (a, b) = choose|a: int, b: int| 0 <= a < i + 1 && 0 <= b < d[a].len() && #[trigger] abs_int(d[a][b]) == v as int;
                    if a == i {
                        assert(abs_int(d[i as int][b]) == v as int);
                    }
                }
                if seen_var(d, i as int, c@.len() as int, v as int) {
                    if exists|b: int| 0 <= b < c@.len() && #[trigger] abs_int(d[i as int][b]) == v as int {
                        let b = choose|b: int| 0 <= b < c@.len() && #[trigger] abs_int(d[i as int][b]) == v as int;
                        assert(abs_int(d[i as int][b]) == v as int);
                    }
                }
            }
        }
        i = i + 1;
    }
    let ghost vars = term_vars(d);
    let ghost f = |x: i32| x as int;
    let ghost ks = keys@.map_values(f);
    proof {
        assert forall|v: int| vars.contains(v) <==> ks.to_set().contains(v) by {
            if vars.contains(v) {
                let (a, b) = choose|a: int, b: int| 0 <= a < d.len() && 0 <= b < d[a].len() && #[trigger] abs_int(d[a][b]) == v;
                assert(ts@[a]@[b] != i32::MIN);
                assert(seen_var(d, ts@.len() as int, 0, v));
                assert(keys@.contains(v as i32));
                let p = choose|p: int| 0 <= p < keys@.len() && keys@[p] == v as i32;
                assert(ks[p] == v);
            }
            if ks.to_set().contains(v) {
                let p = choose|p: int| 0 <= p < ks.len() && ks[p] == v;
                assert(keys@.contains(keys@[p]));
                assert(seen_var(d, ts@.len() as int, 0, keys@[p] as int));
            }
        }
        assert(vars =~= ks.to_set());
        assert(ks.no_duplicates()) by {
            assert forall|a: int, b: int| 0 <= a < ks.len() && 0 <= b < ks.len() && a != b implies ks[a] != ks[b] by {
                assert(keys@[a] != keys@[b]);
            }
        }
        ks.unique_seq_to_set();
        assert(vars.finite());
    }
    let count = keys.len();
    if count == 0 {
        proof {
            assert(vars =~= Set::<int>::empty());
        }
        return (0, true);
    }
    let span: usize = (hi - lo) as usize;
    proof {
        assert(vars.contains(lo as int)) by {
            let p = choose|p: int| 0 <= p < keys@.len() && keys@[p] == lo;
            assert(ks[p] == lo);
        }
        assert(vars.contains(hi as int)) by {
            let p = choose|p: int| 0 <= p < keys@.len() && keys@[p] == hi;
            assert(ks[p] == hi);
        }
        assert forall|x: int| #[trigger] vars.contains(x) implies lo <= x <= hi by {
            let p = choose|p: int| 0 <= p < ks.len() && ks[p] == x;
            assert(lo <= keys@[p] <= hi);
        }
        lemma_no_gaps_count(vars, lo as int, hi as int);
    }
    (count, span < count && span + 1 == count)
}

/// Checks the header line against the numbers of variables and clauses of the formula.
fn check_header(h: &Vec<char>, var_count: usize, term_count: usize) -> (r: Result<(), DataFormatError>)
    ensures
        outcome_of(r) == header_outcome(h@, var_count as int, term_count as int),
{
    let hw = split_words(h);
    if hw.len() < 3 {
        return Err(DataFormatError::InvalidHeaderFormat);
    }
    let header_var_count = match parse_i32(&hw[2]) {
        Ok(n) => n,
        Err(e) => {
            return Err(DataFormatError::InvalidNumber(e));
        },
    };
    if hw.len() < 4 {
        return Err(DataFormatError::InvalidHeaderFormat);
    }
    let header_term_count = match parse_i32(&hw[3]) {
        Ok(n) => n,
        Err(e) => {
            return Err(DataFormatError::InvalidNumber(e));
        },
    };
    #[verifier::truncate]
    let vc = var_count as i32;
    #[verifier::truncate]
    let tc = term_count as i32;
    if header_var_count != vc {
        return Err(DataFormatError::InvalidHeaderData(HeaderDataType::VariableCount));
    }
    if header_term_count != tc {
        return Err(DataFormatError::InvalidHeaderData(HeaderDataType::TermCount));
    }
    Ok(())
}

/// Counting literals clause by clause gives the same number on vectors and on sequences.
proof fn lemma_total_literals_deep(v: Seq<Vec<i32>>)
    ensures
        total_literals(v) == literal_count(deep_terms(v)),
    decreases v.len(),
{
    if v.len() > 0 {
        lemma_total_literals_deep(v.drop_last());
        assert(deep_terms(v).drop_last() =~= deep_terms(v.drop_last()));
    }
}

/// Takes a `&str` and returns a `Result<Cnf, DataFormatError>`.
/// The ok part of the result contains a vector containing all the clauses of the
/// given `input` as vectors, and the variable order the FORCE heuristic computed for them.
pub fn parse_string(input: &str, settings: ParserSettings) -> (r: Result<Cnf, DataFormatError>)
    requires
        all_numbers(body_words(input@)) ==> {
            &&& forall|i: int, t: int| 0 <= i < text_terms(input@).len() && 0 <= t < text_terms(input@)[i].len()
                ==> #[trigger] text_terms(input@)[i][t] != i32::MIN
            &&& term_vars(text_terms(input@)).len() < i32::MAX
        },
        parse_outcome(input@, settings) is Parsed ==> forall|i: int| 0 <= i < text_terms(input@).len()
            ==> (#[trigger] text_terms(input@)[i]).len() > 0,
    ensures
        outcome_of(r) == parse_outcome(input@, settings),
        r matches Ok(cnf) ==> {
            &&& holds_seqs(cnf.terms@, text_terms(input@))
            &&& cnf.term_count == text_terms(input@).len() as u32
            &&& cnf.varibale_count == term_vars(text_terms(input@)).len()
            &&& cnf.order@.no_duplicates()
            &&& forall|v: i32| #[trigger] cnf.order@.contains(v) <==> occurs(cnf.terms@, v)
            &&& exists|orders: Seq<Seq<i32>>| #[trigger] force_rounds(cnf.terms@, cnf.varibale_count, orders)
                && orders.last() == cnf.order@
        },
{
    let cs = text_chars(input);
    let (headers, buff) = split_text(&cs);
    // Check the number of found headers.
    if headers.len() >= 2 {
        return Err(DataFormatError::MultipleHeaders);
    }
    if headers.len() == 0 && !settings.ignore_header {
        return Err(DataFormatError::MissingHeader);
    }
    let ws = split_words(&buff);
    proof {
        assert(deep_words(ws@) =~= body_words(input@));
    }
    let terms = match read_terms(&ws) {
        Ok(t) => t,
        Err(e) => {
            return Err(DataFormatError::InvalidNumber(e));
        },
    };
    let ghost ts = text_terms(input@);
    proof {
        assert(ws@.len() == ws.len());
        assert(literal_count(spec_terms(deep_words(ws@))) <= ws@.len());
        assert(spec_terms(deep_words(ws@)) == ts);
        assert(deep_terms(terms@) =~= ts);
        assert forall|i: int, t: int| 0 <= i < terms@.len() && 0 <= t < terms@[i]@.len() implies #[trigger] terms@[i]@[t] != i32::MIN by {
            assert(terms@[i]@ == ts[i]);
        }
    }
    let term_count = terms.len();
    let (var_count, ascending) = count_vars(&terms);
    if !settings.ignore_ascending_variables && !ascending {
        return Err(DataFormatError::NonAscendingVariables);
    }
    if !settings.ignore_header {
        match check_header(&headers[0], var_count, term_count) {
            Err(e) => {
                return Err(e);
            },
            Ok(()) => {},
        }
    }
    let mut order: Vec<i32> = Vec::new();
    let mut v: usize = 0;
    while v < var_count
        invariant
            var_count < i32::MAX,
            v <= var_count,
            order@.len() == v,
        decreases var_count - v,
    {
        order.push((v + 1) as i32);
        v = v + 1;
    }
    proof {
        lemma_total_literals_deep(terms@);
        assert(literal_count(ts) <= usize::MAX);
        assert(total_literals(terms@) <= usize::MAX);
        assert forall|i: int| 0 <= i < terms@.len() implies (#[trigger] terms@[i])@.len() > 0 by {
            assert(terms@[i]@ == ts[i]);
        }
    }
    let for_force = Cnf {
        varibale_count: var_count as u32,
        term_count: term_count as u32,
        terms: copy_terms(&terms),
        order,
    };
    proof {
        assert(total_literals(for_force.terms@) == total_literals(terms@)) by {
            assert(deep_terms(for_force.terms@) =~= deep_terms(terms@));
            lemma_total_literals_deep(for_force.terms@);
        }
        assert forall|i: int, t: int| 0 <= i < for_force.terms@.len() && 0 <= t < for_force.terms@[i]@.len() implies #[trigger] for_force.terms@[i]@[t] != i32::MIN by {
            assert(for_force.terms@[i]@ == terms@[i]@);
        }
        assert forall|i: int| 0 <= i < for_force.terms@.len() implies (#[trigger] for_force.terms@[i])@.len() > 0 by {
            assert(for_force.terms@[i]@ == terms@[i]@);
        }
    }
    let ghost ff_terms = for_force.terms@;
    let ghost ff_count = for_force.varibale_count;
    let (forced, _span) = force(for_force);
    let ghost orders = choose|orders: Seq<Seq<i32>>| #[trigger] force_rounds(ff_terms, ff_count, orders) && orders.last() == forced@;
    proof {
        assert forall|i: int| 0 <= i < ff_terms.len() implies #[trigger] ff_terms[i]@ == terms@[i]@ by {}
        lemma_force_rounds_same(ff_terms, terms@, ff_count, orders);
        assert(force_rounds(terms@, (var_count as u32), orders));
        assert forall|x: i32| occurs(for_force.terms@, x) <==> #[trigger] occurs(terms@, x) by {
            if occurs(for_force.terms@, x) {
                let (a, b) = choose|a: int, b: int| 0 <= a < for_force.terms@.len() && 0 <= b < for_force.terms@[a]@.len()
                    && #[trigger] crate::variable_ordering::abs_i32(for_force.terms@[a]@[b]) == x;
                assert(for_force.terms@[a]@ == terms@[a]@);
                assert(crate::variable_ordering::abs_i32(terms@[a]@[b]) == x);
            }
            if occurs(terms@, x) {
                let (a, b) = choose|a: int, b: int| 0 <= a < terms@.len() && 0 <= b < terms@[a]@.len()
                    && #[trigger] crate::variable_ordering::abs_i32(terms@[a]@[b]) == x;
                assert(for_force.terms@[a]@ == terms@[a]@);
                assert(crate::variable_ordering::abs_i32(for_force.terms@[a]@[b]) == x);
            }
        }
    }
    let cnf = Cnf { varibale_count: var_count as u32, term_count: term_count as u32, terms, order: forced };
    proof {
        assert(force_rounds(cnf.terms@, cnf.varibale_count, orders) && orders.last() == cnf.order@);
    }
    Ok(cnf)
}

} // verus!
