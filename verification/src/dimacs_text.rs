//! Reading a formula from the text of a DIMACS file: comment lines (`c`), one header line
//! (`p <type> <variables> <clauses>`), and clause lines of literals ending in `0`.
use vstd::prelude::*;
use crate::dimacs::Instance;
use crate::parser::{split_lines, words, is_ws, all_digits, digits_value, literal_value, valid_i32_literal,
    holds_seqs, lemma_split_lines_len, text_chars, split_words, is_whitespace, parse_i32};
use crate::bdd_file::text_lines;

verus! {

broadcast use vstd::seq_lib::group_to_multiset_ensures;

/// Why a DIMACS text could not be read; each names the line (counted from 0).
#[derive(Debug, PartialEq, Eq, Structural)]
pub enum DimacsFailure {
    /// A line that is neither comment, header nor clause.
    UnknownLine(usize),
    /// A number that does not fit: a literal beyond `i32`, a header count or the variable
    /// number of a naming comment beyond `u32`.
    BadNumber(usize),
}

/// A line without a carriage return at its end.
pub open spec fn strip_cr(l: Seq<char>) -> Seq<char> {
    if l.len() > 0 && l.last() == '\r' { l.drop_last() } else { l }
}

/// The lines of a text as a buffered reader gives them: split at line feeds, a carriage return
/// before a line feed dropped, and no empty line after a final line feed.
pub open spec fn input_lines(text: Seq<char>) -> Seq<Seq<char>> {
    let ls = split_lines(text);
    let n = if ls.last().len() == 0 { ls.len() - 1 } else { ls.len() as int };
    Seq::new(n as nat, |i: int| if i < ls.len() - 1 { strip_cr(ls[i]) } else { ls[i] })
}

/// A literal: an optional minus sign and decimal digits.
pub open spec fn int_token(w: Seq<char>) -> bool {
    ||| (w.len() > 1 && w[0] == '-' && all_digits(w.drop_first()))
    ||| (w.len() > 0 && all_digits(w))
}

/// A character of a word: an ASCII letter, digit or underscore.
pub open spec fn word_char(c: char) -> bool {
    ('a' <= c && c <= 'z') || ('A' <= c && c <= 'Z') || ('0' <= c && c <= '9') || c == '_'
}

/// A nonempty run of decimal digits.
pub open spec fn number_word(w: Seq<char>) -> bool {
    w.len() > 0 && all_digits(w)
}

/// The header: `p`, a type word and two numbers, separated by whitespace, nothing after.
pub open spec fn is_header_line(l: Seq<char>) -> bool {
    let ws = words(l);
    &&& l.len() > 0
    &&& l[0] == 'p'
    &&& !is_ws(l.last())
    &&& ws.len() == 4
    &&& ws[0] == seq!['p']
    &&& ws[1].len() > 0
    &&& forall|k: int| 0 <= k < ws[1].len() ==> #[trigger] word_char(ws[1][k])
    &&& number_word(ws[2])
    &&& number_word(ws[3])
}

/// A clause: literals separated by whitespace, from the first character to a last `0`.
pub open spec fn is_clause_line(l: Seq<char>) -> bool {
    let ws = words(l);
    &&& l.len() > 0
    &&& !is_ws(l[0])
    &&& !is_ws(l.last())
    &&& ws.len() >= 2
    &&& ws.last() == seq!['0']
    &&& forall|k: int| 0 <= k < ws.len() ==> #[trigger] int_token(ws[k])
}

/// A comment naming a variable by a number beyond `u32`: `c`, whitespace, that number, more.
pub open spec fn big_comment_id(l: Seq<char>) -> bool {
    let ws = words(l);
    &&& l.len() > 1
    &&& l[0] == 'c'
    &&& is_ws(l[1])
    &&& ws.len() >= 3
    &&& number_word(ws[1])
    &&& digits_value(ws[1]) > u32::MAX
}

/// What has been read: whether the header was seen, its two counts, the literals of each clause.
pub type DimacsState = (bool, u32, u32, Seq<Seq<i32>>);

/// The literals of a clause line, the final `0` left out.
pub open spec fn clause_literals(l: Seq<char>) -> Seq<i32> {
    let toks = words(l).drop_last();
    Seq::new(toks.len(), |k: int| literal_value(toks[k]) as i32)
}

/// Reading line `l` (number `i`) in state `st`.
pub open spec fn dimacs_step(st: DimacsState, l: Seq<char>, i: int) -> Result<DimacsState, DimacsFailure> {
    if l.len() > 0 && l[0] == 'c' {
        if big_comment_id(l) { Err(DimacsFailure::BadNumber(i as usize)) } else { Ok(st) }
    } else if !st.0 && is_header_line(l) {
        let ws = words(l);
        if digits_value(ws[2]) <= u32::MAX && digits_value(ws[3]) <= u32::MAX {
            Ok((true, digits_value(ws[2]) as u32, digits_value(ws[3]) as u32, st.3))
        } else {
            Err(DimacsFailure::BadNumber(i as usize))
        }
    } else if is_clause_line(l) {
        let toks = words(l).drop_last();
        if forall|k: int| 0 <= k < toks.len() ==> #[trigger] valid_i32_literal(toks[k]) {
            Ok((st.0, st.1, st.2, st.3.push(clause_literals(l))))
        } else {
            Err(DimacsFailure::BadNumber(i as usize))
        }
    } else {
        Err(DimacsFailure::UnknownLine(i as usize))
    }
}

/// Reading the first `k` lines.
pub open spec fn dimacs_fold(ls: Seq<Seq<char>>, k: int) -> Result<DimacsState, DimacsFailure>
    decreases k,
{
    if k <= 0 {
        Ok((false, 0, 0, Seq::empty()))
    } else {
        match dimacs_fold(ls, k - 1) {
            Err(e) => Err(e),
            Ok(st) => dimacs_step(st, ls[k - 1], k - 1),
        }
    }
}

/// What reading a whole DIMACS text comes to.
pub open spec fn dimacs_outcome(text: Seq<char>) -> Result<DimacsState, DimacsFailure> {
    let ls = input_lines(text);
    dimacs_fold(ls, ls.len() as int)
}

/// Clause `c` holds the literals `lits` in ascending order.
pub open spec fn sorted_clause(c: Seq<i32>, lits: Seq<i32>) -> bool {
    ascending(c) && c.to_multiset() == lits.to_multiset()
}

/// Each clause holds the literals read for it, in ascending order.
pub open spec fn sorted_clauses(cs: Seq<Vec<i32>>, raw: Seq<Seq<i32>>) -> bool {
    &&& cs.len() == raw.len()
    &&& forall|k: int| 0 <= k < raw.len() ==> #[trigger] sorted_clause(cs[k]@, raw[k])
}

/// In ascending order.
pub open spec fn ascending(s: Seq<i32>) -> bool {
    forall|i: int, j: int| 0 <= i < j < s.len() ==> s[i] <= s[j]
}

/// The literals in ascending order.
pub fn sort_literals(v: &Vec<i32>) -> (r: Vec<i32>)
    ensures
        ascending(r@),
        r@.to_multiset() == v@.to_multiset(),
{
    let mut out: Vec<i32> = Vec::new();
    let mut i: usize = 0;
    while i < v.len()
        invariant
            i <= v@.len(),
            ascending(out@),
            out@.to_multiset() == v@.subrange(0, i as int).to_multiset(),
        decreases v@.len() - i,
    {
        let x = v[i];
        let mut p: usize = 0;
        while p < out.len() && out[p] <= x
            invariant
                p <= out@.len(),
                forall|j: int| 0 <= j < p ==> out@[j] <= x,
            decreases out@.len() - p,
        {
            p = p + 1;
        }
        let ghost before = out@;
        out.insert(p, x);
        proof {
            assert(out@ == before.insert(p as int, x));
            assert forall|a: int, b: int| 0 <= a < b < out@.len() implies out@[a] <= out@[b] by {
                if b < p {
                } else if b == p {
                    assert(out@[a] == before[a]);
                } else if a < p {
                    assert(out@[b] == before[b - 1]);
                    assert(before[a] <= before[p as int]);
                } else if a == p {
                    assert(before[p as int] > x);
                    assert(before[p as int] <= before[b - 1]);
                } else {
                    assert(out@[a] == before[a - 1]);
                }
            }
            assert(v@.subrange(0, i as int + 1) =~= v@.subrange(0, i as int).push(x));
        }
        i = i + 1;
    }
    proof {
        assert(v@.subrange(0, v@.len() as int) =~= v@);
    }
    out
}


/// A prefix of a run of digits is worth no more than the run.
pub proof fn lemma_digits_prefix(s: Seq<char>, i: int)
    requires
        all_digits(s),
        0 <= i <= s.len(),
    ensures
        digits_value(s.subrange(0, i)) <= digits_value(s),
        digits_value(s) >= 0,
    decreases s.len(),
{
    if s.len() == 0 {
        assert(s.subrange(0, i) =~= s);
    } else if i == s.len() {
        assert(s.subrange(0, i) =~= s);
        lemma_digits_prefix(s.drop_last(), 0);
    } else {
        lemma_digits_prefix(s.drop_last(), i);
        assert(s.drop_last().subrange(0, i) =~= s.subrange(0, i));
    }
}

/// The value of a run of digits, or `None` where it exceeds `u32::MAX`.
fn digits_u32(w: &Vec<char>) -> (r: Option<u32>)
    requires
        number_word(w@),
    ensures
        r is Some <==> digits_value(w@) <= u32::MAX,
        r matches Some(v) ==> v == digits_value(w@),
{
    let mut acc: u64 = 0;
    let mut i: usize = 0;
    while i < w.len()
        invariant
            number_word(w@),
            i <= w@.len(),
            acc == digits_value(w@.subrange(0, i as int)),
            acc <= u32::MAX,
        decreases w@.len() - i,
    {
        let c = w[i];
        assert(w@.subrange(0, i as int + 1).drop_last() =~= w@.subrange(0, i as int));
        let d = (c as u64) - ('0' as u64);
        acc = acc * 10 + d;
        if acc > 4294967295u64 {
            proof {
                lemma_digits_prefix(w@, i as int + 1);
            }
            return None;
        }
        i = i + 1;
    }
    proof {
        assert(w@.subrange(0, i as int) =~= w@);
    }
    Some(acc as u32)
}

/// Whether every character is a decimal digit.
fn digits_only(w: &Vec<char>) -> (r: bool)
    ensures
        r == all_digits(w@),
{
    let mut i: usize = 0;
    while i < w.len()
        invariant
            i <= w@.len(),
            forall|k: int| 0 <= k < i ==> '0' <= #[trigger] w@[k] <= '9',
        decreases w@.len() - i,
    {
        if !('0' <= w[i] && w[i] <= '9') {
            return false;
        }
        i = i + 1;
    }
    true
}

/// Whether `w` is a literal: an optional minus sign and decimal digits.
fn literal_token(w: &Vec<char>) -> (r: bool)
    ensures
        r == int_token(w@),
{
    if w.len() == 0 {
        return false;
    }
    if digits_only(w) {
        return true;
    }
    if w.len() > 1 && w[0] == '-' {
        let mut rest: Vec<char> = Vec::new();
        let mut i: usize = 1;
        while i < w.len()
            invariant
                1 <= i <= w@.len(),
                rest@ == w@.subrange(1, i as int),
            decreases w@.len() - i,
        {
            rest.push(w[i]);
            i = i + 1;
        }
        proof {
            assert(rest@ =~= w@.drop_first());
        }
        return digits_only(&rest);
    }
    false
}

/// Whether every character is an ASCII letter, digit or underscore.
fn word_chars_only(w: &Vec<char>) -> (r: bool)
    ensures
        r == forall|k: int| 0 <= k < w@.len() ==> #[trigger] word_char(w@[k]),
{
    let mut i: usize = 0;
    while i < w.len()
        invariant
            i <= w@.len(),
            forall|k: int| 0 <= k < i ==> #[trigger] word_char(w@[k]),
        decreases w@.len() - i,
    {
        let c = w[i];
        if !(('a' <= c && c <= 'z') || ('A' <= c && c <= 'Z') || ('0' <= c && c <= '9') || c == '_') {
            assert(!word_char(w@[i as int]));
            return false;
        }
        i = i + 1;
    }
    true
}

/// Whether `w` is the single character `c`.
fn single(w: &Vec<char>, c: char) -> (r: bool)
    ensures
        r == (w@ == seq![c]),
{
    if w.len() == 1 && w[0] == c {
        assert(w@ =~= seq![c]);
        true
    } else {
        proof {
            if w@ == seq![c] {
                assert(w@.len() == 1);
            }
        }
        false
    }
}

/// Whether line `l`, with words `ws`, is a header line.
fn header_line(l: &Vec<char>, ws: &Vec<Vec<char>>) -> (r: bool)
    requires
        holds_seqs(ws@, words(l@)),
    ensures
        r == is_header_line(l@),
{
    if l.len() == 0 || l[0] != 'p' || is_whitespace(l[l.len() - 1]) || ws.len() != 4 {
        return false;
    }
    let r = single(&ws[0], 'p') && ws[1].len() > 0 && word_chars_only(&ws[1])
        && ws[2].len() > 0 && digits_only(&ws[2]) && ws[3].len() > 0 && digits_only(&ws[3]);
    proof {
        assert(ws@[0]@ == words(l@)[0] && ws@[1]@ == words(l@)[1] && ws@[2]@ == words(l@)[2] && ws@[3]@ == words(l@)[3]);
    }
    r
}

/// Whether line `l`, with words `ws`, is a clause line.
fn clause_line(l: &Vec<char>, ws: &Vec<Vec<char>>) -> (r: bool)
    requires
        holds_seqs(ws@, words(l@)),
    ensures
        r == is_clause_line(l@),
{
    if l.len() == 0 || is_whitespace(l[0]) || is_whitespace(l[l.len() - 1]) || ws.len() < 2 {
        return false;
    }
    if !single(&ws[ws.len() - 1], '0') {
        proof {
            assert(ws@[ws@.len() - 1]@ == words(l@).last());
        }
        return false;
    }
    proof {
        assert(ws@[ws@.len() - 1]@ == words(l@).last());
    }
    let mut k: usize = 0;
    while k < ws.len()
        invariant
            holds_seqs(ws@, words(l@)),
            k <= ws@.len(),
            forall|j: int| 0 <= j < k ==> #[trigger] int_token(words(l@)[j]),
        decreases ws@.len() - k,
    {
        if !literal_token(&ws[k]) {
            assert(ws@[k as int]@ == words(l@)[k as int]);
            return false;
        }
        assert(ws@[k as int]@ == words(l@)[k as int]);
        k = k + 1;
    }
    true
}

/// Whether line `l`, with words `ws`, is a comment naming a variable by a number beyond `u32`.
fn big_comment(l: &Vec<char>, ws: &Vec<Vec<char>>) -> (r: bool)
    requires
        holds_seqs(ws@, words(l@)),
    ensures
        r == big_comment_id(l@),
{
    if l.len() <= 1 || l[0] != 'c' || !is_whitespace(l[1]) || ws.len() < 3 {
        return false;
    }
    proof {
        assert(ws@[1]@ == words(l@)[1]);
    }
    if ws[1].len() == 0 || !digits_only(&ws[1]) {
        return false;
    }
    digits_u32(&ws[1]).is_none()
}

/// Line `i` of the text as a buffered reader gives it, from its pieces between line feeds.
fn line_of(lines: &Vec<Vec<char>>, i: usize) -> (r: Vec<char>)
    requires
        i < lines@.len(),
    ensures
        r@ == if i < lines@.len() - 1 { strip_cr(lines@[i as int]@) } else { lines@[i as int]@ },
{
    let l = &lines[i];
    let mut n = l.len();
    if i < lines.len() - 1 && n > 0 && l[n - 1] == '\r' {
        n = n - 1;
    }
    let mut out: Vec<char> = Vec::new();
    let mut k: usize = 0;
    while k < n
        invariant
            n <= l@.len(),
            k <= n,
            out@ == l@.subrange(0, k as int),
        decreases n - k,
    {
        out.push(l[k]);
        k = k + 1;
    }
    proof {
        if n == l@.len() {
            assert(out@ =~= l@);
        } else {
            assert(out@ =~= l@.drop_last());
        }
    }
    out
}

/// The literals of a clause line with words `ws`, or the failure of one that does not fit.
fn clause_values(l: &Vec<char>, ws: &Vec<Vec<char>>, i: usize) -> (r: Result<Vec<i32>, DimacsFailure>)
    requires
        holds_seqs(ws@, words(l@)),
        ws@.len() >= 1,
    ensures
        r is Ok <==> forall|k: int| 0 <= k < words(l@).drop_last().len() ==> #[trigger] valid_i32_literal(words(l@).drop_last()[k]),
        r matches Ok(v) ==> v@ == clause_literals(l@),
        r matches Err(e) ==> e == DimacsFailure::BadNumber(i),
{
    let ghost toks = words(l@).drop_last();
    let mut out: Vec<i32> = Vec::new();
    let mut k: usize = 0;
    while k < ws.len() - 1
        invariant
            holds_seqs(ws@, words(l@)),
            ws@.len() >= 1,
            toks == words(l@).drop_last(),
            k <= toks.len(),
            out@.len() == k,
            forall|j: int| 0 <= j < k ==> #[trigger] valid_i32_literal(toks[j]),
            forall|j: int| 0 <= j < k ==> out@[j] == literal_value(toks[j]) as i32,
        decreases ws@.len() - k,
    {
        assert(ws@[k as int]@ == toks[k as int]);
        match parse_i32(&ws[k]) {
            Ok(x) => {
                out.push(x);
            },
            Err(_) => {
                return Err(DimacsFailure::BadNumber(i));
            },
        }
        k = k + 1;
    }
    proof {
        assert(out@ =~= clause_literals(l@));
    }
    Ok(out)
}

/// A failure stays the outcome when more lines are read.
pub proof fn lemma_fold_failed(ls: Seq<Seq<char>>, k: int, n: int, e: DimacsFailure)
    requires
        0 <= k <= n,
        dimacs_fold(ls, k) == Err::<DimacsState, DimacsFailure>(e),
    ensures
        dimacs_fold(ls, n) == Err::<DimacsState, DimacsFailure>(e),
    decreases n - k,
{
    if n > k {
        lemma_fold_failed(ls, k, n - 1, e);
    }
}

/// Reads a formula from the text of a DIMACS file, line by line: comment lines are skipped,
/// the first header line gives the numbers of variables and clauses, and each clause line
/// gives a clause, its literals in ascending order. Any other line, or a number that does not
/// fit, is a failure at that line.
pub fn parse_dimacs_text(text: &str) -> (r: Result<Instance, DimacsFailure>)
    ensures
        match dimacs_outcome(text@) {
            Err(e) => r == Err::<Instance, DimacsFailure>(e),
            Ok(st) => r matches Ok(inst) && inst.no_variables == st.1 && inst.no_clauses == st.2
                && sorted_clauses(inst.clauses@, st.3),
        },
{
    let cs = text_chars(text);
    let lines = text_lines(&cs);
    proof {
        lemma_split_lines_len(cs@);
    }
    let m = if lines[lines.len() - 1].len() == 0 { lines.len() - 1 } else { lines.len() };
    let ghost ls = input_lines(cs@);
    proof {
        assert(ls.len() == m);
    }
    let mut header = false;
    let mut nv: u32 = 0;
    let mut nc: u32 = 0;
    let mut clauses: Vec<Vec<i32>> = Vec::new();
    let ghost mut raw: Seq<Seq<i32>> = Seq::empty();
    let mut i: usize = 0;
    while i < m
        invariant
            holds_seqs(lines@, split_lines(cs@)),
            cs@ == text@,
            ls == input_lines(cs@),
            ls.len() == m,
            m <= lines@.len(),
            i <= m,
            dimacs_fold(ls, i as int) == Ok::<DimacsState, DimacsFailure>((header, nv, nc, raw)),
            sorted_clauses(clauses@, raw),
        decreases m - i,
    {
        let l = line_of(&lines, i);
        assert(l@ == ls[i as int]);
        let ws = split_words(&l);
        let ghost st: DimacsState = (header, nv, nc, raw);
        if l.len() > 0 && l[0] == 'c' {
            if big_comment(&l, &ws) {
                proof {
                    lemma_fold_failed(ls, i + 1, m as int, DimacsFailure::BadNumber(i));
                }
                return Err(DimacsFailure::BadNumber(i));
            }
            assert(dimacs_fold(ls, i + 1) == Ok::<DimacsState, DimacsFailure>(st));
        } else if !header && header_line(&l, &ws) {
            proof {
                assert(ws@[2]@ == words(l@)[2] && ws@[3]@ == words(l@)[3]);
            }
            let v = digits_u32(&ws[2]);
            let c = digits_u32(&ws[3]);
            match (v, c) {
                (Some(v), Some(c)) => {
                    header = true;
                    nv = v;
                    nc = c;
                    assert(dimacs_fold(ls, i + 1) == Ok::<DimacsState, DimacsFailure>((header, nv, nc, raw)));
                },
                _ => {
                    proof {
                        lemma_fold_failed(ls, i + 1, m as int, DimacsFailure::BadNumber(i));
                    }
                    return Err(DimacsFailure::BadNumber(i));
                },
            }
        } else if clause_line(&l, &ws) {
            let vals = match clause_values(&l, &ws, i) {
                Ok(v) => v,
                Err(e) => {
                    proof {
                        lemma_fold_failed(ls, i + 1, m as int, e);
                    }
                    return Err(e);
                },
            };
            let sorted = sort_literals(&vals);
            let ghost sorted_v = sorted@;
            let ghost before = clauses@;
            clauses.push(sorted);
            proof {
                assert(dimacs_fold(ls, i + 1) == Ok::<DimacsState, DimacsFailure>((header, nv, nc, raw.push(vals@))));
                raw = raw.push(vals@);
                assert forall|k: int| 0 <= k < raw.len() implies #[trigger] sorted_clause(clauses@[k]@, raw[k]) by {
                    if k < raw.len() - 1 {
                        assert(clauses@[k] == before[k]);
                    } else {
                        assert(clauses@[k]@ == sorted_v);
                    }
                }
            }
        } else {
            proof {
                lemma_fold_failed(ls, i + 1, m as int, DimacsFailure::UnknownLine(i));
            }
            return Err(DimacsFailure::UnknownLine(i));
        }
        i = i + 1;
    }
    proof {
        assert(dimacs_outcome(text@) == dimacs_fold(ls, m as int));
    }
    Ok(Instance { no_clauses: nc, no_variables: nv, clauses })
}

/// Reads a formula from the text of a DIMACS file that reads without failure: every line a
/// comment, the first header or a clause, and every number fitting (`parse_dimacs_text` tells
/// which line fails otherwise). The header gives the numbers of variables and clauses, and each
/// clause line a clause, its literals in ascending order.
pub fn parse_dimacs(text: &str) -> (r: Instance)
    requires
        dimacs_outcome(text@) is Ok,
    ensures
        ({
            let st = dimacs_outcome(text@)->Ok_0;
            r.no_variables == st.1 && r.no_clauses == st.2 && sorted_clauses(r.clauses@, st.3)
        }),
{
    match parse_dimacs_text(text) {
        Ok(instance) => instance,
        Err(_) => {
            proof {
                assert(false);
            }
            Instance::new(0, 0, Vec::new())
        },
    }
}

} // verus!
