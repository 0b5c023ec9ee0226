//! Reading a (multi-rooted) diagram from the lines of a DDDMP file: the header with the
//! variable ordering and the roots, then the node list, where a node may point to the negation
//! of a child (a complemented edge).
use vstd::prelude::*;
use std::collections::{HashMap, HashSet};
use std::num::ParseIntError;
use crate::bdd_node::{NodeID, VarID};
use crate::bdd_manager::DDManager;
use crate::sorting::{sorted_indices, index_before};
use crate::parser::{all_digits, digits_value, unsigned_part, literal_value, words, holds_seqs, text_chars, split_words, parse_error_text};

verus! {

broadcast use vstd::std_specs::hash::group_hash_axioms;

// ----------------------------------------------------------------------------------------
// Numbers

/// The digits of an unsigned number, after an optional `+`.
pub open spec fn plus_part(s: Seq<char>) -> Seq<char> {
    if s.len() > 0 && s[0] == '+' {
        s.drop_first()
    } else {
        s
    }
}

/// An optional `+` followed by at least one decimal digit, of a value that fits a `usize`.
pub open spec fn valid_usize_literal(s: Seq<char>) -> bool {
    &&& plus_part(s).len() > 0
    &&& all_digits(plus_part(s))
    &&& digits_value(plus_part(s)) <= usize::MAX
}

/// An optional sign followed by at least one decimal digit, of a value that fits an `isize`.
pub open spec fn valid_isize_literal(s: Seq<char>) -> bool {
    &&& unsigned_part(s).len() > 0
    &&& all_digits(unsigned_part(s))
    &&& isize::MIN <= literal_value(s) <= isize::MAX
}

/// `str::parse::<usize>` of std on the text of a token. Its documentation: the text is an
/// optional `+` sign followed by decimal digits only, and the value fits a `usize`; anything
/// else is an error.
#[verifier::external_body]
pub(crate) fn parse_usize(token: &Vec<char>) -> (r: Result<usize, ParseIntError>)
    ensures
        r is Ok <==> valid_usize_literal(token@),
        r matches Ok(n) ==> n == digits_value(plus_part(token@)),
{
    let s: String = token.iter().collect();
    s.parse::<usize>()
}

/// `str::parse::<isize>` of std on the text of a token. Its documentation: the text is an
/// optional `+` or `-` sign followed by decimal digits only, and the value fits an `isize`;
/// anything else is an error.
#[verifier::external_body]
fn parse_isize(token: &Vec<char>) -> (r: Result<isize, ParseIntError>)
    ensures
        r is Ok <==> valid_isize_literal(token@),
        r matches Ok(n) ==> n == literal_value(token@),
{
    let s: String = token.iter().collect();
    s.parse::<isize>()
}

/// The value of a valid `usize` literal.
pub open spec fn usize_value(s: Seq<char>) -> usize {
    digits_value(plus_part(s)) as usize
}

/// The value of a valid `isize` literal.
pub open spec fn isize_value(s: Seq<char>) -> isize {
    literal_value(s) as isize
}

/// All words are valid `usize` literals.
pub open spec fn all_usize(ws: Seq<Seq<char>>) -> bool {
    forall|i: int| 0 <= i < ws.len() ==> valid_usize_literal(#[trigger] ws[i])
}

/// All words are valid `isize` literals.
pub open spec fn all_isize(ws: Seq<Seq<char>>) -> bool {
    forall|i: int| 0 <= i < ws.len() ==> valid_isize_literal(#[trigger] ws[i])
}

/// Reads every word as a `usize`, failing on the first that is none.
pub(crate) fn read_usizes(ws: &Vec<Vec<char>>) -> (r: Result<Vec<usize>, String>)
    ensures
        r is Ok <==> all_usize(ws@.map_values(|w: Vec<char>| w@)),
        r matches Ok(v) ==> v@.len() == ws@.len() && forall|i: int| 0 <= i < ws@.len() ==> #[trigger] v@[i] == usize_value(ws@[i]@),
{
    let ghost sw = ws@.map_values(|w: Vec<char>| w@);
    let mut out: Vec<usize> = Vec::new();
    let mut i: usize = 0;
    while i < ws.len()
        invariant
            i <= ws@.len(),
            sw == ws@.map_values(|w: Vec<char>| w@),
            out@.len() == i,
            forall|j: int| 0 <= j < i ==> valid_usize_literal(#[trigger] sw[j]),
            forall|j: int| 0 <= j < i ==> #[trigger] out@[j] == usize_value(ws@[j]@),
        decreases ws@.len() - i,
    {
        match parse_usize(&ws[i]) {
            Ok(n) => {
                out.push(n);
            },
            Err(e) => {
                proof {
                    assert(!valid_usize_literal(sw[i as int]));
                }
                return Err(parse_error_text(&e));
            },
        }
        i = i + 1;
    }
    Ok(out)
}

/// Reads every word as an `isize`, failing on the first that is none.
fn read_isizes(ws: &Vec<Vec<char>>) -> (r: Result<Vec<isize>, String>)
    ensures
        r is Ok <==> all_isize(ws@.map_values(|w: Vec<char>| w@)),
        r matches Ok(v) ==> v@.len() == ws@.len() && forall|i: int| 0 <= i < ws@.len() ==> #[trigger] v@[i] == isize_value(ws@[i]@),
{
    let ghost sw = ws@.map_values(|w: Vec<char>| w@);
    let mut out: Vec<isize> = Vec::new();
    let mut i: usize = 0;
    while i < ws.len()
        invariant
            i <= ws@.len(),
            sw == ws@.map_values(|w: Vec<char>| w@),
            out@.len() == i,
            forall|j: int| 0 <= j < i ==> valid_isize_literal(#[trigger] sw[j]),
            forall|j: int| 0 <= j < i ==> #[trigger] out@[j] == isize_value(ws@[j]@),
        decreases ws@.len() - i,
    {
        match parse_isize(&ws[i]) {
            Ok(n) => {
                out.push(n);
            },
            Err(e) => {
                proof {
                    assert(!valid_isize_literal(sw[i as int]));
                }
                return Err(parse_error_text(&e));
            },
        }
        i = i + 1;
    }
    Ok(out)
}

// ----------------------------------------------------------------------------------------
// The header

/// The words of each line of a text, as the parser sees them.
pub open spec fn lines_words(v: Seq<Vec<Vec<char>>>) -> Seq<Seq<Seq<char>>> {
    Seq::new(v.len(), |i: int| crate::parser::deep_words(v[i]@))
}

/// The line is the mark `mark` alone.
pub open spec fn is_mark(l: Seq<Seq<char>>, mark: Seq<char>) -> bool {
    l == seq![mark]
}

/// The number of lines before the first that is the mark `mark` alone.
pub open spec fn lines_before(ls: Seq<Seq<Seq<char>>>, mark: Seq<char>) -> int
    decreases ls.len(),
{
    if ls.len() == 0 {
        0
    } else if is_mark(ls[0], mark) {
        0
    } else {
        1 + lines_before(ls.drop_first(), mark)
    }
}

/// The words after `key` on the last of the lines that starts with `key`.
pub open spec fn header_value(h: Seq<Seq<Seq<char>>>, key: Seq<char>) -> Option<Seq<Seq<char>>>
    decreases h.len(),
{
    if h.len() == 0 {
        None
    } else if h.last().len() > 0 && h.last()[0] == key {
        Some(h.last().drop_first())
    } else {
        header_value(h.drop_last(), key)
    }
}

/// The words of each line.
fn line_words(lines: &Vec<String>) -> (r: Vec<Vec<Vec<char>>>)
    ensures
        r@.len() == lines@.len(),
        forall|i: int| 0 <= i < lines@.len() ==> #[trigger] lines_words(r@)[i] == words(lines@[i]@),
{
    let mut out: Vec<Vec<Vec<char>>> = Vec::new();
    let mut i: usize = 0;
    while i < lines.len()
        invariant
            i <= lines@.len(),
            out@.len() == i,
            forall|j: int| 0 <= j < i ==> #[trigger] lines_words(out@)[j] == words(lines@[j]@),
        decreases lines@.len() - i,
    {
        let cs = text_chars(lines[i].as_str());
        let ws = split_words(&cs);
        let ghost before = out@;
        out.push(ws);
        proof {
            assert forall|j: int| 0 <= j < i + 1 implies #[trigger] lines_words(out@)[j] == words(lines@[j]@) by {
                if j < i {
                    assert(out@[j] == before[j]);
                    assert(lines_words(before)[j] == words(lines@[j]@));
                } else {
                    assert(crate::parser::deep_words(ws@) =~= words(cs@));
                }
            }
        }
        i = i + 1;
    }
    out
}

/// The two words are equal.
fn same_word(a: &Vec<char>, b: &Vec<char>) -> (r: bool)
    ensures
        r == (a@ == b@),
{
    if a.len() != b.len() {
        return false;
    }
    let mut i: usize = 0;
    while i < a.len()
        invariant
            i <= a@.len(),
            a@.len() == b@.len(),
            forall|j: int| 0 <= j < i ==> a@[j] == b@[j],
        decreases a@.len() - i,
    {
        if a[i] != b[i] {
            return false;
        }
        i = i + 1;
    }
    proof {
        assert(a@ =~= b@);
    }
    true
}

/// The line is the mark alone.
fn line_is_mark(l: &Vec<Vec<char>>, mark: &Vec<char>) -> (r: bool)
    ensures
        r == is_mark(crate::parser::deep_words(l@), mark@),
{
    if l.len() != 1 {
        proof {
            assert(crate::parser::deep_words(l@).len() != 1);
        }
        return false;
    }
    let r = same_word(&l[0], mark);
    proof {
        if r {
            assert(crate::parser::deep_words(l@) =~= seq![mark@]);
        } else {
            assert(crate::parser::deep_words(l@)[0] != mark@);
        }
    }
    r
}

/// The number of lines before the first that is the mark alone.
fn find_mark(ls: &Vec<Vec<Vec<char>>>, from: usize, mark: &Vec<char>) -> (r: usize)
    requires
        from <= ls@.len(),
    ensures
        r == from + lines_before(lines_words(ls@).skip(from as int), mark@),
        from <= r <= ls@.len(),
{
    let ghost w = lines_words(ls@);
    let mut i: usize = from;
    while i < ls.len()
        invariant
            from <= i <= ls@.len(),
            w == lines_words(ls@),
            lines_before(w.skip(from as int), mark@) == (i - from) + lines_before(w.skip(i as int), mark@),
        decreases ls@.len() - i,
    {
        proof {
            assert(w.skip(i as int).drop_first() =~= w.skip(i + 1));
            assert(w.skip(i as int)[0] == w[i as int]);
        }
        if line_is_mark(&ls[i], mark) {
            return i;
        }
        i = i + 1;
    }
    proof {
        assert(w.skip(i as int).len() == 0);
    }
    i
}

/// The words after `key` on the last line before `end` that starts with `key`.
fn lookup(ls: &Vec<Vec<Vec<char>>>, end: usize, key: &Vec<char>) -> (r: Option<Vec<Vec<char>>>)
    requires
        end <= ls@.len(),
    ensures
        opt_words(r) == header_value(lines_words(ls@).take(end as int), key@),
{
    let ghost w = lines_words(ls@);
    let mut i: usize = end;
    while i > 0
        invariant
            i <= end <= ls@.len(),
            w == lines_words(ls@),
            header_value(w.take(end as int), key@) == header_value(w.take(i as int), key@),
        decreases i,
    {
        proof {
            assert(w.take(i as int).drop_last() =~= w.take(i - 1));
            assert(w.take(i as int).last() == w[i - 1]);
        }
        let l = &ls[i - 1];
        if l.len() > 0 && same_word(&l[0], key) {
            let mut rest: Vec<Vec<char>> = Vec::new();
            let mut k: usize = 1;
            while k < l.len()
                invariant
                    1 <= k <= l@.len(),
                    rest@.len() == k - 1,
                    forall|j: int| 0 <= j < k - 1 ==> #[trigger] rest@[j]@ == l@[j + 1]@,
                decreases l@.len() - k,
            {
                rest.push(l[k].clone());
                k = k + 1;
            }
            proof {
                assert(crate::parser::deep_words(rest@) =~= crate::parser::deep_words(l@).drop_first());
            }
            return Some(rest);
        }
        i = i - 1;
    }
    None
}

/// The header keys that take values.
pub enum HeaderKey {
    Nnodes,
    Nsuppvars,
    Nvars,
    Ids,
    Permids,
    Rootids,
}

/// Why reading DDDMP lines fails.
pub enum DddmpFailure {
    Missing(HeaderKey),
    LineInvalid(HeaderKey),
    Number,
    NodeListMissing,
    UnexpectedLine,
    TerminalNotSupported,
    EndedUnexpectedly,
    TerminalMissing,
    RootMissing,
}

/// The message for a failure (a failed number gives the message of its parse error).
pub open spec fn failure_text(f: DddmpFailure) -> Seq<char> {
    match f {
        DddmpFailure::Missing(HeaderKey::Nnodes) => ".nnodes missing!"@,
        DddmpFailure::Missing(HeaderKey::Nsuppvars) => ".nsuppvars missing!"@,
        DddmpFailure::Missing(HeaderKey::Nvars) => ".nvars missing!"@,
        DddmpFailure::Missing(HeaderKey::Ids) => ".ids missing!"@,
        DddmpFailure::Missing(HeaderKey::Permids) => ".permids missing!"@,
        DddmpFailure::Missing(HeaderKey::Rootids) => ".rootids missing!"@,
        DddmpFailure::LineInvalid(HeaderKey::Nnodes) => ".nnodes line invalid!"@,
        DddmpFailure::LineInvalid(HeaderKey::Nsuppvars) => ".nsuppvars line invalid!"@,
        DddmpFailure::LineInvalid(HeaderKey::Nvars) => ".nvars line invalid!"@,
        DddmpFailure::LineInvalid(HeaderKey::Ids) => ".ids line invalid!"@,
        DddmpFailure::LineInvalid(HeaderKey::Permids) => ".permids line invalid!"@,
        DddmpFailure::LineInvalid(HeaderKey::Rootids) => ".rootids line invalid!"@,
        DddmpFailure::Number => Seq::empty(),
        DddmpFailure::NodeListMissing => "Node list missing in dddmp file!"@,
        DddmpFailure::UnexpectedLine => "Node list contains unexpected line!"@,
        DddmpFailure::TerminalNotSupported => "Terminal Node not supported"@,
        DddmpFailure::EndedUnexpectedly => "Node list ended unexpectedly!"@,
        DddmpFailure::TerminalMissing => "Terminal node missing!"@,
        DddmpFailure::RootMissing => "Root node not existant in BDD!"@,
    }
}

/// `r` fails as `f` says: with its message, or any message for a failed number.
pub open spec fn fails_as<T>(r: Result<T, String>, f: DddmpFailure) -> bool {
    &&& r is Err
    &&& !(f is Number) ==> r->Err_0@ == failure_text(f)
}

/// The words of an optional line.
pub open spec fn opt_words(v: Option<Vec<Vec<char>>>) -> Option<Seq<Seq<char>>> {
    match v {
        Some(x) => Some(crate::parser::deep_words(x@)),
        None => None,
    }
}

/// A header field holding one number.
pub open spec fn single_value(v: Option<Seq<Seq<char>>>, k: HeaderKey) -> Result<usize, DddmpFailure> {
    match v {
        None => Err(DddmpFailure::Missing(k)),
        Some(ws) => if ws.len() != 1 {
            Err(DddmpFailure::LineInvalid(k))
        } else if valid_usize_literal(ws[0]) {
            Ok(usize_value(ws[0]))
        } else {
            Err(DddmpFailure::Number)
        },
    }
}

/// Reads a header field holding one number.
fn read_single(v: Option<Vec<Vec<char>>>, missing: &str, invalid: &str, Ghost(k): Ghost<HeaderKey>) -> (r: Result<usize, String>)
    requires
        missing@ == failure_text(DddmpFailure::Missing(k)),
        invalid@ == failure_text(DddmpFailure::LineInvalid(k)),
    ensures
        match single_value(opt_words(v), k) {
            Ok(n) => r == Ok::<usize, String>(n),
            Err(f) => fails_as(r, f),
        },
{
    match v {
        None => Err(String::from_str(missing)),
        Some(ws) => {
            if ws.len() != 1 {
                Err(String::from_str(invalid))
            } else {
                match parse_usize(&ws[0]) {
                    Ok(n) => Ok(n),
                    Err(e) => Err(parse_error_text(&e)),
                }
            }
        },
    }
}

// ----------------------------------------------------------------------------------------
// The variable ordering

/// The levels given to the variables named in the header, in order; the rest still 0.
pub open spec fn assigned_levels(ids: Seq<usize>, permids: Seq<usize>, n: int, i: int) -> Seq<usize>
    decreases i,
{
    if i <= 0 {
        Seq::new((n + 1) as nat, |v: int| 0usize)
    } else {
        assigned_levels(ids, permids, n, i - 1).update(ids[i - 1] + 1, (permids[i - 1] + 1) as usize)
    }
}

/// The assigned levels cover the `n` variables and the terminals.
proof fn lemma_assigned_len(ids: Seq<usize>, permids: Seq<usize>, n: int, i: int)
    requires
        n >= 0,
        i <= ids.len(),
        forall|j: int| 0 <= j < ids.len() ==> #[trigger] ids[j] < n,
    ensures
        assigned_levels(ids, permids, n, i).len() == n + 1,
    decreases i,
{
    if i > 0 {
        lemma_assigned_len(ids, permids, n, i - 1);
    }
}

/// The numbers in `1..=n` that `used` leaves out, in increasing order.
pub open spec fn free_seq(n: int, used: Set<int>) -> Seq<int>
    decreases n,
{
    if n <= 0 {
        Seq::empty()
    } else if used.contains(n) {
        free_seq(n - 1, used)
    } else {
        free_seq(n - 1, used).push(n)
    }
}

/// `s` with the `k` first free variables given the `k` first free levels.
pub open spec fn pair_free(s: Seq<usize>, fv: Seq<int>, fl: Seq<int>, k: int) -> Seq<usize>
    decreases k,
{
    if k <= 0 {
        s
    } else {
        pair_free(s, fv, fl, k - 1).update(fv[k - 1], fl[k - 1] as usize)
    }
}

/// The variables named in the header (shifted by one: variable 0 stands for the terminals).
pub open spec fn named_vars(ids: Seq<usize>) -> Set<int> {
    Set::new(|v: int| exists|i: int| 0 <= i < ids.len() && v == ids[i] + 1)
}

/// The variable ordering of the header: each named variable on its level, the terminals one
/// below the `n` variables, and the free variables on the free levels, the smallest first.
pub open spec fn header_order(ids: Seq<usize>, permids: Seq<usize>, n: int) -> Seq<usize> {
    let fv = free_seq(n, named_vars(ids));
    let fl = free_seq(n, named_vars(permids));
    let k = if fv.len() <= fl.len() { fv.len() as int } else { fl.len() as int };
    pair_free(assigned_levels(ids, permids, n, ids.len() as int).update(0, (n + 1) as usize), fv, fl, k)
}

/// The free numbers are increasing and lie in `1..=n`, outside `used`, and take every such
/// number.
proof fn lemma_free_seq(n: int, used: Set<int>)
    ensures
        forall|k: int| 0 <= k < free_seq(n, used).len() ==> 1 <= #[trigger] free_seq(n, used)[k] <= n
            && !used.contains(free_seq(n, used)[k]),
        forall|k: int, l: int| 0 <= k < l < free_seq(n, used).len() ==> #[trigger] free_seq(n, used)[k] < #[trigger] free_seq(n, used)[l],
        free_seq(n, used).len() <= if n < 0 { 0 } else { n },
    decreases n,
{
    if n > 0 {
        lemma_free_seq(n - 1, used);
    }
}

/// Builds the variable ordering of the header.
fn build_order(ids: &Vec<usize>, permids: &Vec<usize>, n: usize) -> (r: Vec<usize>)
    requires
        n < usize::MAX,
        ids@.len() == permids@.len(),
        forall|i: int| 0 <= i < ids@.len() ==> #[trigger] ids@[i] < n,
        forall|i: int| 0 <= i < permids@.len() ==> #[trigger] permids@[i] < usize::MAX,
    ensures
        r@ == header_order(ids@, permids@, n as int),
{
    let ghost fvs = free_seq(n as int, named_vars(ids@));
    let ghost fls = free_seq(n as int, named_vars(permids@));
    let mut order: Vec<usize> = Vec::new();
    let mut used_var: Vec<bool> = Vec::new();
    let mut used_level: Vec<bool> = Vec::new();
    let mut v: usize = 0;
    while v <= n
        invariant
            v <= n + 1,
            n < usize::MAX,
            order@.len() == v,
            used_var@.len() == v,
            used_level@.len() == v,
            forall|j: int| 0 <= j < v ==> #[trigger] order@[j] == 0,
            forall|j: int| 0 <= j < v ==> !(#[trigger] used_var@[j]),
            forall|j: int| 0 <= j < v ==> !(#[trigger] used_level@[j]),
        decreases n + 1 - v,
    {
        order.push(0);
        used_var.push(false);
        used_level.push(false);
        v = v + 1;
    }
    proof {
        assert(order@ =~= assigned_levels(ids@, permids@, n as int, 0));
    }
    let mut i: usize = 0;
    while i < ids.len()
        invariant
            i <= ids@.len(),
            ids@.len() == permids@.len(),
            n < usize::MAX,
            forall|j: int| 0 <= j < ids@.len() ==> #[trigger] ids@[j] < n,
            forall|j: int| 0 <= j < permids@.len() ==> #[trigger] permids@[j] < usize::MAX,
            order@ == assigned_levels(ids@, permids@, n as int, i as int),
            used_var@.len() == n + 1,
            used_level@.len() == n + 1,
            forall|x: int| 0 <= x <= n ==> (#[trigger] used_var@[x] <==> exists|j: int| 0 <= j < i && x == ids@[j] + 1),
            forall|x: int| 0 <= x <= n ==> (#[trigger] used_level@[x] <==> exists|j: int| 0 <= j < i && x == permids@[j] + 1),
        decreases ids@.len() - i,
    {
        proof {
            lemma_assigned_len(ids@, permids@, n as int, i as int);
        }
        let var_id = ids[i] + 1;
        let level = permids[i] + 1;
        order.set(var_id, level);
        used_var.set(var_id, true);
        if level <= n {
            used_level.set(level, true);
        }
        proof {
            assert forall|x: int| 0 <= x <= n implies (#[trigger] used_var@[x] <==> exists|j: int| 0 <= j < i + 1 && x == ids@[j] + 1) by {
                if x == var_id {
                    assert(0 <= i < i + 1 && x == ids@[i as int] + 1);
                }
                if exists|j: int| 0 <= j < i + 1 && x == ids@[j] + 1 {
                    let j = choose|j: int| 0 <= j < i + 1 && x == ids@[j] + 1;
                    if j < i {
                        assert(exists|j2: int| 0 <= j2 < i && x == ids@[j2] + 1);
                    }
                }
            }
            assert forall|x: int| 0 <= x <= n implies (#[trigger] used_level@[x] <==> exists|j: int| 0 <= j < i + 1 && x == permids@[j] + 1) by {
                if x == level {
                    assert(0 <= i < i + 1 && x == permids@[i as int] + 1);
                }
                if exists|j: int| 0 <= j < i + 1 && x == permids@[j] + 1 {
                    let j = choose|j: int| 0 <= j < i + 1 && x == permids@[j] + 1;
                    if j < i {
                        assert(exists|j2: int| 0 <= j2 < i && x == permids@[j2] + 1);
                    }
                }
            }
        }
        i = i + 1;
    }
    proof {
        lemma_assigned_len(ids@, permids@, n as int, i as int);
    }
    order.set(0, n + 1);
    // The free variables and levels, in increasing order
    let mut fv: Vec<usize> = Vec::new();
    let mut fl: Vec<usize> = Vec::new();
    let mut x: usize = 1;
    while x <= n
        invariant
            1 <= x <= n + 1,
            n < usize::MAX,
            used_var@.len() == n + 1,
            used_level@.len() == n + 1,
            forall|y: int| 0 <= y <= n ==> (#[trigger] used_var@[y] <==> named_vars(ids@).contains(y)),
            forall|y: int| 0 <= y <= n ==> (#[trigger] used_level@[y] <==> named_vars(permids@).contains(y)),
            fv@.len() == free_seq(x - 1, named_vars(ids@)).len(),
            forall|k: int| 0 <= k < fv@.len() ==> #[trigger] fv@[k] == free_seq(x - 1, named_vars(ids@))[k],
            fl@.len() == free_seq(x - 1, named_vars(permids@)).len(),
            forall|k: int| 0 <= k < fl@.len() ==> #[trigger] fl@[k] == free_seq(x - 1, named_vars(permids@))[k],
        decreases n + 1 - x,
    {
        if !used_var[x] {
            fv.push(x);
        }
        if !used_level[x] {
            fl.push(x);
        }
        x = x + 1;
    }
    let m = if fv.len() <= fl.len() { fv.len() } else { fl.len() };
    let ghost base = order@;
    proof {
        lemma_free_seq(n as int, named_vars(ids@));
        lemma_free_seq(n as int, named_vars(permids@));
    }
    let mut k: usize = 0;
    while k < m
        invariant
            k <= m,
            m <= fv@.len(),
            m <= fl@.len(),
            order@.len() == n + 1,
            fv@.len() == fvs.len(),
            fl@.len() == fls.len(),
            forall|j: int| 0 <= j < fv@.len() ==> #[trigger] fv@[j] == fvs[j],
            forall|j: int| 0 <= j < fl@.len() ==> #[trigger] fl@[j] == fls[j],
            forall|j: int| 0 <= j < fvs.len() ==> 1 <= #[trigger] fvs[j] <= n,
            order@ == pair_free(base, fvs, fls, k as int),
        decreases m - k,
    {
        order.set(fv[k], fl[k]);
        k = k + 1;
    }
    proof {
        assert forall|y: int| 0 <= y <= n implies (#[trigger] used_var@[y] <==> named_vars(ids@).contains(y)) by {}
    }
    order
}

// ----------------------------------------------------------------------------------------
// The header fields

/// The numbers of the `.nnodes`, `.nsuppvars` and `.nvars` lines and the variables and levels
/// of the `.ids` and `.permids` lines, checked in that order.
pub open spec fn header_fields(h: Seq<Seq<Seq<char>>>) -> Result<(usize, usize, usize, Seq<usize>, Seq<usize>), DddmpFailure> {
    match single_value(header_value(h, ".nnodes"@), HeaderKey::Nnodes) {
        Err(f) => Err(f),
        Ok(nn) => match single_value(header_value(h, ".nsuppvars"@), HeaderKey::Nsuppvars) {
            Err(f) => Err(f),
            Ok(vc) => match single_value(header_value(h, ".nvars"@), HeaderKey::Nvars) {
                Err(f) => Err(f),
                Ok(nv) => match header_value(h, ".ids"@) {
                    None => Err(DddmpFailure::Missing(HeaderKey::Ids)),
                    Some(iw) => if !all_usize(iw) {
                        Err(DddmpFailure::Number)
                    } else {
                        match header_value(h, ".permids"@) {
                            None => Err(DddmpFailure::Missing(HeaderKey::Permids)),
                            Some(pw) => if !all_usize(pw) {
                                Err(DddmpFailure::Number)
                            } else if iw.len() != vc {
                                Err(DddmpFailure::LineInvalid(HeaderKey::Ids))
                            } else if pw.len() != vc {
                                Err(DddmpFailure::LineInvalid(HeaderKey::Permids))
                            } else {
                                Ok((nn, vc, nv, iw.map_values(|w: Seq<char>| usize_value(w)), pw.map_values(|w: Seq<char>| usize_value(w))))
                            },
                        }
                    },
                },
            },
        },
    }
}

/// Building the ordering from these fields would index past the variables or overflow.
pub open spec fn order_overflows(nv: usize, ids: Seq<usize>, permids: Seq<usize>) -> bool {
    ||| nv == usize::MAX
    ||| exists|i: int| 0 <= i < ids.len() && #[trigger] ids[i] >= nv
    ||| exists|i: int| 0 <= i < permids.len() && #[trigger] permids[i] == usize::MAX
}

/// The root nodes of the `.rootids` line.
pub open spec fn header_roots(h: Seq<Seq<Seq<char>>>) -> Result<Seq<isize>, DddmpFailure> {
    match header_value(h, ".rootids"@) {
        None => Err(DddmpFailure::Missing(HeaderKey::Rootids)),
        Some(rw) => if rw.len() == 0 {
            Err(DddmpFailure::LineInvalid(HeaderKey::Rootids))
        } else if !all_isize(rw) {
            Err(DddmpFailure::Number)
        } else {
            Ok(rw.map_values(|w: Seq<char>| isize_value(w)))
        },
    }
}

/// The characters of a text as a vector.
fn key(k: &str) -> (r: Vec<char>)
    ensures
        r@ == k@,
{
    text_chars(k)
}

/// Reads a list of numbers of the header.
fn read_list(v: Option<Vec<Vec<char>>>, missing: &str, Ghost(k): Ghost<HeaderKey>) -> (r: Result<Vec<usize>, String>)
    requires
        missing@ == failure_text(DddmpFailure::Missing(k)),
    ensures
        match opt_words(v) {
            None => fails_as(r, DddmpFailure::Missing(k)),
            Some(ws) => if !all_usize(ws) {
                fails_as(r, DddmpFailure::Number)
            } else {
                r matches Ok(x) && x@ == ws.map_values(|w: Seq<char>| usize_value(w))
            },
        },
{
    match v {
        None => Err(String::from_str(missing)),
        Some(ws) => {
            let r = read_usizes(&ws);
            proof {
                assert(ws@.map_values(|w: Vec<char>| w@) =~= crate::parser::deep_words(ws@));
                if r is Ok {
                    let x = r->Ok_0;
                    assert(x@ =~= crate::parser::deep_words(ws@).map_values(|w: Seq<char>| usize_value(w)));
                }
            }
            r
        },
    }
}

/// Reads the header fields.
fn read_header_fields(ls: &Vec<Vec<Vec<char>>>, end: usize) -> (r: Result<(usize, usize, usize, Vec<usize>, Vec<usize>), String>)
    requires
        end <= ls@.len(),
    ensures
        match header_fields(lines_words(ls@).take(end as int)) {
            Ok(x) => r matches Ok(y) && y.0 == x.0 && y.1 == x.1 && y.2 == x.2 && y.3@ == x.3 && y.4@ == x.4,
            Err(f) => fails_as(r, f),
        },
{
    let nodecount = match read_single(lookup(ls, end, &key(".nnodes")), ".nnodes missing!", ".nnodes line invalid!", Ghost(HeaderKey::Nnodes)) {
        Ok(n) => n,
        Err(e) => return Err(e),
    };
    let varcount = match read_single(lookup(ls, end, &key(".nsuppvars")), ".nsuppvars missing!", ".nsuppvars line invalid!", Ghost(HeaderKey::Nsuppvars)) {
        Ok(n) => n,
        Err(e) => return Err(e),
    };
    let varcount_with_free = match read_single(lookup(ls, end, &key(".nvars")), ".nvars missing!", ".nvars line invalid!", Ghost(HeaderKey::Nvars)) {
        Ok(n) => n,
        Err(e) => return Err(e),
    };
    let ids = match read_list(lookup(ls, end, &key(".ids")), ".ids missing!", Ghost(HeaderKey::Ids)) {
        Ok(x) => x,
        Err(e) => return Err(e),
    };
    let permids = match read_list(lookup(ls, end, &key(".permids")), ".permids missing!", Ghost(HeaderKey::Permids)) {
        Ok(x) => x,
        Err(e) => return Err(e),
    };
    if ids.len() != varcount {
        return Err(String::from_str(".ids line invalid!"));
    }
    if permids.len() != varcount {
        return Err(String::from_str(".permids line invalid!"));
    }
    Ok((nodecount, varcount, varcount_with_free, ids, permids))
}

/// Reads the root nodes.
fn read_roots(ls: &Vec<Vec<Vec<char>>>, end: usize) -> (r: Result<Vec<isize>, String>)
    requires
        end <= ls@.len(),
    ensures
        match header_roots(lines_words(ls@).take(end as int)) {
            Ok(x) => r matches Ok(y) && y@ == x,
            Err(f) => fails_as(r, f),
        },
{
    match lookup(ls, end, &key(".rootids")) {
        None => Err(String::from_str(".rootids missing!")),
        Some(ws) => {
            if ws.len() == 0 {
                Err(String::from_str(".rootids line invalid!"))
            } else {
                let r = read_isizes(&ws);
                proof {
                    assert(ws@.map_values(|w: Vec<char>| w@) =~= crate::parser::deep_words(ws@));
                    if r is Ok {
                    let x = r->Ok_0;
                        assert(x@ =~= crate::parser::deep_words(ws@).map_values(|w: Seq<char>| isize_value(w)));
                    }
                }
                r
            }
        },
    }
}

// ----------------------------------------------------------------------------------------
// The node list

/// The nodes read so far (ID to variable, high and low child), and the terminals seen: the 1
/// terminal, and with `.add` the 0 terminal.
pub type ListState = (Map<isize, (VarID, isize, isize)>, (Option<isize>, Option<isize>));

/// Reads one (non-empty) line of the node list: ID, variable (`T` for a terminal), terminal
/// value, high child, low child. Variables are shifted by one: variable 0 stands for the
/// terminals.
pub open spec fn node_line(st: ListState, l: Seq<Seq<char>>, add: bool) -> Result<ListState, DddmpFailure> {
    if l.len() != 5 {
        Err(DddmpFailure::UnexpectedLine)
    } else if !valid_isize_literal(l[0]) || !valid_isize_literal(l[3]) || !valid_isize_literal(l[4]) {
        Err(DddmpFailure::Number)
    } else {
        let id = isize_value(l[0]);
        let high = isize_value(l[3]);
        let low = isize_value(l[4]);
        if l[1] == "T"@ {
            if !add {
                Ok((st.0.insert(id, (VarID(0), high, low)), (Some(id), None)))
            } else if !valid_isize_literal(l[2]) {
                Err(DddmpFailure::Number)
            } else if isize_value(l[2]) == 0 {
                Ok((st.0.insert(id, (VarID(0), high, low)), (st.1.0, Some(id))))
            } else if isize_value(l[2]) == 1 {
                Ok((st.0.insert(id, (VarID(0), high, low)), (Some(id), st.1.1)))
            } else {
                Err(DddmpFailure::TerminalNotSupported)
            }
        } else if !valid_usize_literal(l[1]) {
            Err(DddmpFailure::Number)
        } else {
            Ok((st.0.insert(id, (VarID((usize_value(l[1]) + 1) as usize), high, low)), st.1))
        }
    }
}

/// The line names a variable so large that one more overflows.
pub open spec fn line_overflows(l: Seq<Seq<char>>) -> bool {
    &&& l.len() == 5
    &&& valid_isize_literal(l[0]) && valid_isize_literal(l[3]) && valid_isize_literal(l[4])
    &&& l[1] != "T"@
    &&& valid_usize_literal(l[1])
    &&& usize_value(l[1]) == usize::MAX
}

/// Reads the lines of the node list in order, skipping empty ones, up to the first failure.
pub open spec fn nodes_fold(ls: Seq<Seq<Seq<char>>>, add: bool) -> Result<ListState, DddmpFailure>
    decreases ls.len(),
{
    if ls.len() == 0 {
        Ok((Map::empty(), (None, None)))
    } else {
        match nodes_fold(ls.drop_last(), add) {
            Err(f) => Err(f),
            Ok(st) => if ls.last().len() == 0 {
                Ok(st)
            } else {
                node_line(st, ls.last(), add)
            },
        }
    }
}

/// Some line of the node list reached before any failure overflows.
pub open spec fn nodes_overflow(ls: Seq<Seq<Seq<char>>>, add: bool) -> bool
    decreases ls.len(),
{
    if ls.len() == 0 {
        false
    } else {
        nodes_overflow(ls.drop_last(), add) || (nodes_fold(ls.drop_last(), add) is Ok && line_overflows(ls.last()))
    }
}

/// The node list after the header (`rest`, up to its `.end` line): its nodes and terminal IDs,
/// checked against the announced number of nodes.
pub open spec fn node_list(rest: Seq<Seq<Seq<char>>>, nodecount: usize, add: bool) -> Result<(Map<isize, (VarID, isize, isize)>, (isize, Option<isize>)), DddmpFailure> {
    if rest.len() == 0 {
        Err(DddmpFailure::NodeListMissing)
    } else {
        match nodes_fold(rest.take(lines_before(rest, ".end"@)), add) {
            Err(f) => Err(f),
            Ok(st) => if st.0.len() != nodecount {
                Err(DddmpFailure::EndedUnexpectedly)
            } else if st.1.0 is None || (add && st.1.1 is None) {
                Err(DddmpFailure::TerminalMissing)
            } else {
                Ok((st.0, (st.1.0->0, if !add { None } else { st.1.1 })))
            },
        }
    }
}

/// Reads one non-empty line of the node list into the map.
fn read_node_line(
    nodes: &mut HashMap<isize, (VarID, isize, isize)>,
    terminal_ids: &mut (Option<isize>, Option<isize>),
    l: &Vec<Vec<char>>,
    add: bool,
    t_word: &Vec<char>,
) -> (r: Result<(), String>)
    requires
        t_word@ == "T"@,
        !line_overflows(crate::parser::deep_words(l@)),
    ensures
        match node_line((old(nodes)@, *old(terminal_ids)), crate::parser::deep_words(l@), add) {
            Ok(st) => r is Ok && final(nodes)@ == st.0 && *final(terminal_ids) == st.1,
            Err(f) => fails_as(r, f),
        },
{
    let ghost w = crate::parser::deep_words(l@);
    if l.len() != 5 {
        return Err(String::from_str("Node list contains unexpected line!"));
    }
    proof {
        assert(w[0] == l@[0]@ && w[1] == l@[1]@ && w[2] == l@[2]@ && w[3] == l@[3]@ && w[4] == l@[4]@);
    }
    let id = match parse_isize(&l[0]) {
        Ok(n) => n,
        Err(e) => return Err(parse_error_text(&e)),
    };
    let high = match parse_isize(&l[3]) {
        Ok(n) => n,
        Err(e) => return Err(parse_error_text(&e)),
    };
    let low = match parse_isize(&l[4]) {
        Ok(n) => n,
        Err(e) => return Err(parse_error_text(&e)),
    };
    let var_id = if same_word(&l[1], t_word) {
        if !add {
            *terminal_ids = (Some(id), None);
        } else {
            let value = match parse_isize(&l[2]) {
                Ok(n) => n,
                Err(e) => return Err(parse_error_text(&e)),
            };
            if value == 0 {
                *terminal_ids = (terminal_ids.0, Some(id));
            } else if value == 1 {
                *terminal_ids = (Some(id), terminal_ids.1);
            } else {
                return Err(String::from_str("Terminal Node not supported"));
            }
        }
        VarID(0)
    } else {
        match parse_usize(&l[1]) {
            Ok(n) => VarID(n + 1),
            Err(e) => return Err(parse_error_text(&e)),
        }
    };
    nodes.insert(id, (var_id, high, low));
    Ok(())
}

/// Reads the node list: the lines from `from` up to the first `.end` line.
fn parse_bcdd_nodelist(ls: &Vec<Vec<Vec<char>>>, from: usize, expected_nodecount: usize, add: bool)
    -> (r: Result<(HashMap<isize, (VarID, isize, isize)>, (isize, Option<isize>)), String>)
    requires
        from <= ls@.len(),
        !nodes_overflow(lines_words(ls@).skip(from as int).take(lines_before(lines_words(ls@).skip(from as int), ".end"@)), add),
    ensures
        match node_list(lines_words(ls@).skip(from as int), expected_nodecount, add) {
            Ok(x) => r matches Ok(y) && y.0@ == x.0 && y.1 == x.1,
            Err(f) => fails_as(r, f),
        },
{
    let ghost rest = lines_words(ls@).skip(from as int);
    if from >= ls.len() {
        return Err(String::from_str("Node list missing in dddmp file!"));
    }
    let end_word = key(".end");
    let end = find_mark(ls, from, &end_word);
    let ghost body = rest.take(end - from);
    let t_word = key("T");
    let mut nodes: HashMap<isize, (VarID, isize, isize)> = HashMap::new();
    let mut terminal_ids: (Option<isize>, Option<isize>) = (None, None);
    let mut i: usize = from;
    while i < end
        invariant
            from <= i <= end <= ls@.len(),
            rest == lines_words(ls@).skip(from as int),
            body == rest.take(end - from),
            end - from == lines_before(rest, ".end"@),
            t_word@ == "T"@,
            !nodes_overflow(body, add),
            nodes_fold(body.take(i - from), add) == Ok::<ListState, DddmpFailure>((nodes@, terminal_ids)),
        decreases end - i,
    {
        proof {
            let bi = body.take(i - from + 1);
            assert(bi.drop_last() =~= body.take(i - from));
            assert(bi.last() == lines_words(ls@)[i as int]);
            lemma_overflow_prefix(body, add, i - from + 1);
        }
        let l = &ls[i];
        if l.len() > 0 {
            match read_node_line(&mut nodes, &mut terminal_ids, l, add, &t_word) {
                Ok(()) => {},
                Err(e) => {
                    proof {
                        let bi = body.take(i - from + 1);
                        assert(bi.last() == crate::parser::deep_words(l@));
                        assert(nodes_fold(bi, add) == node_line((nodes@, terminal_ids), crate::parser::deep_words(l@), add));
                        lemma_fold_fails_prefix(body, add, i - from + 1);
                        assert(rest.len() > 0);
                        assert(nodes_fold(body, add) == node_line((nodes@, terminal_ids), crate::parser::deep_words(l@), add));
                        assert(node_list(rest, expected_nodecount, add) is Err);
                        assert(node_list(rest, expected_nodecount, add)->Err_0 == node_line((nodes@, terminal_ids), crate::parser::deep_words(l@), add)->Err_0);
                    }
                    return Err(e);
                },
            }
        }
        i = i + 1;
    }
    proof {
        assert(body.take(i - from) =~= body);
    }
    if nodes.len() != expected_nodecount {
        return Err(String::from_str("Node list ended unexpectedly!"));
    }
    if terminal_ids.0.is_none() || (add && terminal_ids.1.is_none()) {
        return Err(String::from_str("Terminal node missing!"));
    }
    let t = if !add {
        (terminal_ids.0.unwrap(), None)
    } else {
        (terminal_ids.0.unwrap(), terminal_ids.1)
    };
    Ok((nodes, t))
}

/// Overflows in a prefix of the node list are overflows of the whole list.
proof fn lemma_overflow_prefix(ls: Seq<Seq<Seq<char>>>, add: bool, k: int)
    requires
        0 < k <= ls.len(),
        !nodes_overflow(ls, add),
    ensures
        !nodes_overflow(ls.take(k), add),
        !(nodes_fold(ls.take(k - 1), add) is Ok && line_overflows(ls[k - 1])),
    decreases ls.len(),
{
    if k < ls.len() {
        assert(ls.drop_last().take(k) =~= ls.take(k));
        assert(ls.drop_last().take(k - 1) =~= ls.take(k - 1));
        assert(ls.drop_last()[k - 1] == ls[k - 1]);
        lemma_overflow_prefix(ls.drop_last(), add, k);
    } else {
        assert(ls.take(k) =~= ls);
        assert(ls.take(k - 1) =~= ls.drop_last());
    }
}

/// A failure on a prefix of the node list is the failure of the whole list.
proof fn lemma_fold_fails_prefix(ls: Seq<Seq<Seq<char>>>, add: bool, k: int)
    requires
        0 <= k <= ls.len(),
        nodes_fold(ls.take(k), add) is Err,
    ensures
        nodes_fold(ls, add) == nodes_fold(ls.take(k), add),
    decreases ls.len() - k,
{
    if k < ls.len() {
        assert(ls.take(k + 1).drop_last() =~= ls.take(k));
        lemma_fold_fails_prefix(ls, add, k + 1);
    } else {
        assert(ls.take(k) =~= ls);
    }
}

// ----------------------------------------------------------------------------------------
// The whole file

/// A root is bad when its node (the absolute value of its ID) is not in the list; taking the
/// absolute value of the smallest `isize` overflows.
pub open spec fn root_bad(r: isize, m: Map<isize, (VarID, isize, isize)>) -> bool {
    r == isize::MIN || !m.contains_key((if r < 0 { -r } else { r as int }) as isize)
}

/// The position of the first bad root, or the number of roots.
pub open spec fn first_bad_root(roots: Seq<isize>, m: Map<isize, (VarID, isize, isize)>) -> int
    decreases roots.len(),
{
    if roots.len() == 0 {
        0
    } else if root_bad(roots[0], m) {
        0
    } else {
        1 + first_bad_root(roots.drop_first(), m)
    }
}

/// The words of each line of a text given by its lines.
pub open spec fn text_words(lines: Seq<String>) -> Seq<Seq<Seq<char>>> {
    Seq::new(lines.len(), |i: int| words(lines[i]@))
}

/// The header: the lines before the first `.nodes` line.
pub open spec fn header_part(ws: Seq<Seq<Seq<char>>>) -> Seq<Seq<Seq<char>>> {
    ws.take(lines_before(ws, ".nodes"@))
}

/// The lines after the first `.nodes` line (none if there is none).
pub open spec fn rest_part(ws: Seq<Seq<Seq<char>>>) -> Seq<Seq<Seq<char>>> {
    if lines_before(ws, ".nodes"@) < ws.len() {
        ws.skip(lines_before(ws, ".nodes"@) + 1)
    } else {
        Seq::empty()
    }
}

/// A diagram as a DDDMP file gives it: its roots (negative for a negated root), the level of
/// each variable, the nodes by ID, the IDs of the 1 terminal and (with `.add`) the 0 terminal,
/// and whether `.add` was set (then no edge is complemented).
pub open spec fn dddmp_outcome(ws: Seq<Seq<Seq<char>>>)
    -> Result<(Seq<isize>, Seq<usize>, Map<isize, (VarID, isize, isize)>, (isize, Option<isize>), bool), DddmpFailure> {
    let h = header_part(ws);
    let add = header_value(h, ".add"@) is Some;
    match header_fields(h) {
        Err(f) => Err(f),
        Ok(x) => match header_roots(h) {
            Err(f) => Err(f),
            Ok(roots) => match node_list(rest_part(ws), x.0, add) {
                Err(f) => Err(f),
                Ok(nl) => if first_bad_root(roots, nl.0) < roots.len() {
                    Err(DddmpFailure::RootMissing)
                } else {
                    Ok((roots, header_order(x.3, x.4, x.2 as int), nl.0, nl.1, add))
                },
            },
        },
    }
}

/// Reading the file would overflow or index out of bounds: in building the ordering, in a
/// variable of the node list, or in the absolute value of a root.
pub open spec fn dddmp_overflows(ws: Seq<Seq<Seq<char>>>) -> bool {
    let h = header_part(ws);
    let add = header_value(h, ".add"@) is Some;
    match header_fields(h) {
        Err(f) => false,
        Ok(x) => order_overflows(x.2, x.3, x.4) || match header_roots(h) {
            Err(f) => false,
            Ok(roots) => {
                let rest = rest_part(ws);
                ||| (rest.len() > 0 && nodes_overflow(rest.take(lines_before(rest, ".end"@)), add))
                ||| match node_list(rest, x.0, add) {
                    Err(f) => false,
                    Ok(nl) => first_bad_root(roots, nl.0) < roots.len() && roots[first_bad_root(roots, nl.0)] == isize::MIN,
                }
            },
        },
    }
}

/// A diagram as read from a DDDMP file, where an edge may point to the negation of a node.
pub struct Bcdd {
    /// The root nodes (a negative ID for a negated root).
    pub roots: Vec<isize>,
    /// The level of each variable; variable 0 stands for the terminals.
    pub varorder: Vec<usize>,
    /// Each node by ID: its variable and its high and low child (negative for a negated one).
    pub nodes: HashMap<isize, (VarID, isize, isize)>,
    /// The ID of the 1 terminal, and with `add` that of the 0 terminal.
    pub terminal_ids: (isize, Option<isize>),
    /// No edge is complemented; both terminals are given.
    pub add: bool,
}

/// Checks that every root names a node of the list.
fn check_roots(roots: &Vec<isize>, nodes: &HashMap<isize, (VarID, isize, isize)>) -> (r: Result<(), String>)
    requires
        !(first_bad_root(roots@, nodes@) < roots@.len() && roots@[first_bad_root(roots@, nodes@)] == isize::MIN),
    ensures
        first_bad_root(roots@, nodes@) <= roots@.len(),
        r is Ok <==> first_bad_root(roots@, nodes@) == roots@.len(),
        r is Err ==> fails_as(r, DddmpFailure::RootMissing),
{
    let mut i: usize = 0;
    proof {
        assert(roots@.skip(0) =~= roots@);
    }
    while i < roots.len()
        invariant
            i <= roots@.len(),
            first_bad_root(roots@, nodes@) == i + first_bad_root(roots@.skip(i as int), nodes@),
            !(first_bad_root(roots@, nodes@) < roots@.len() && roots@[first_bad_root(roots@, nodes@)] == isize::MIN),
        decreases roots@.len() - i,
    {
        proof {
            assert(roots@.skip(i as int).drop_first() =~= roots@.skip(i + 1));
            assert(roots@.skip(i as int)[0] == roots@[i as int]);
        }
        let r = roots[i];
        if r == isize::MIN {
            return Err(String::from_str("Root node not existant in BDD!"));
        }
        let a = if r < 0 { -r } else { r };
        if !nodes.contains_key(&a) {
            return Err(String::from_str("Root node not existant in BDD!"));
        }
        i = i + 1;
    }
    proof {
        assert(roots@.skip(i as int).len() == 0);
    }
    Ok(())
}

/// Reads a diagram from the lines of a DDDMP file.
pub fn parse_bcdd_from_dddmp_file(lines: &Vec<String>) -> (r: Result<Bcdd, String>)
    requires
        !dddmp_overflows(text_words(lines@)),
    ensures
        match dddmp_outcome(text_words(lines@)) {
            Ok(x) => r matches Ok(b) && b.roots@ == x.0 && b.varorder@ == x.1 && b.nodes@ == x.2
                && b.terminal_ids == x.3 && b.add == x.4,
            Err(f) => fails_as(r, f),
        },
{
    let ls = line_words(lines);
    let ghost ws = text_words(lines@);
    proof {
        assert(lines_words(ls@) =~= ws);
    }
    // Parse header
    let end = find_mark(&ls, 0, &key(".nodes"));
    proof {
        assert(ws.skip(0) =~= ws);
    }
    let add = lookup(&ls, end, &key(".add")).is_some();
    let (nodecount, _varcount, varcount_with_free, ids, permids) = match read_header_fields(&ls, end) {
        Ok(x) => x,
        Err(e) => return Err(e),
    };
    // Parse variable ordering
    let varorder = build_order(&ids, &permids, varcount_with_free);
    // Parse root nodes
    let roots = match read_roots(&ls, end) {
        Ok(x) => x,
        Err(e) => return Err(e),
    };
    // Parse node list
    let from = if end < ls.len() { end + 1 } else { ls.len() };
    proof {
        if end < ls.len() {
            assert(rest_part(ws) == ws.skip(from as int));
        } else {
            assert(ws.skip(from as int).len() == 0);
        }
    }
    let (nodes, terminal_ids) = match parse_bcdd_nodelist(&ls, from, nodecount, add) {
        Ok(x) => x,
        Err(e) => return Err(e),
    };
    // Check if root nodes are valid
    proof {
        assert(node_list(rest_part(ws), nodecount, add) is Ok);
        assert(node_list(rest_part(ws), nodecount, add)->Ok_0.0 == nodes@);
    }
    match check_roots(&roots, &nodes) {
        Ok(()) => {},
        Err(e) => return Err(e),
    }
    Ok(Bcdd { roots, varorder, nodes, terminal_ids, add })
}

// ----------------------------------------------------------------------------------------
// From complemented edges to plain nodes

/// The absolute value of an ID.
pub open spec fn abs_id(e: isize) -> isize {
    if e < 0 { (-e) as isize } else { e }
}

/// An edge points to a node of the list, given by an ID that can be negated.
pub open spec fn edge_ok(m: Map<isize, (VarID, isize, isize)>, e: isize) -> bool {
    e != isize::MIN && m.contains_key(abs_id(e))
}

/// The level of the node an edge points to.
pub open spec fn edge_level(m: Map<isize, (VarID, isize, isize)>, order: Seq<usize>, e: isize) -> int {
    order[m[abs_id(e)].0.0 as int] as int
}

/// A diagram with complemented edges that describes an ordered diagram: valid levels, positive
/// IDs, the 1 terminal in the list on the terminal level, every other node on a variable's
/// level with its two children (possibly negated) on lower levels, every root in the list.
pub open spec fn bcdd_wf(m: Map<isize, (VarID, isize, isize)>, order: Seq<usize>, t: isize, roots: Seq<isize>) -> bool {
    &&& crate::sifting::valid_levels(order)
    &&& m.contains_key(t)
    &&& m[t].0.0 == 0
    &&& forall|n: isize| #[trigger] m.contains_key(n) ==> n > 0 && m[n].0.0 < order.len()
    &&& forall|n: isize| #[trigger] m.contains_key(n) && n != t ==> {
        let e = m[n];
        &&& 1 <= e.0.0
        &&& edge_ok(m, e.1)
        &&& edge_ok(m, e.2)
        &&& edge_level(m, order, e.1) > order[e.0.0 as int]
        &&& edge_level(m, order, e.2) > order[e.0.0 as int]
    }
    &&& forall|i: int| 0 <= i < roots.len() ==> edge_ok(m, #[trigger] roots[i])
}

/// The value under `a` of the function an edge points to: the terminal is 1, a negated edge
/// negates, and a node follows its high child where its variable is true.
#[verifier::opaque]
pub open spec fn bcdd_sem(m: Map<isize, (VarID, isize, isize)>, order: Seq<usize>, t: isize, roots: Seq<isize>, e: isize, a: crate::semantics::Assignment) -> bool
    decreases order[0] - edge_level(m, order, e), if e < 0 { 1int } else { 0int },
    when bcdd_wf(m, order, t, roots) && edge_ok(m, e)
{
    if e < 0 {
        !bcdd_sem(m, order, t, roots, abs_id(e), a)
    } else if e == t {
        true
    } else {
        let n = m[e];
        if a(n.0.0) {
            bcdd_sem(m, order, t, roots, n.1, a)
        } else {
            bcdd_sem(m, order, t, roots, n.2, a)
        }
    }
}

/// Whether parent `p` (with children `h`, `l`) is listed among the parents that need node `c`
/// plain (`neg` false) or negated (`neg` true), once `p` itself is processed: its edges list it,
/// and where `p` is needed negated its negated copy lists it for the opposite polarity, taking
/// its plain edges off when `p` is not needed plain.
pub open spec fn listed(h: isize, l: isize, c: isize, neg: bool, plain_needed: bool, negated_needed: bool) -> bool {
    let pos0 = (abs_id(h) == c && h > 0) || (abs_id(l) == c && l > 0);
    let neg0 = (abs_id(h) == c && h < 0) || (abs_id(l) == c && l < 0);
    if !negated_needed {
        if neg { neg0 } else { pos0 }
    } else {
        // the high edge, then the low edge
        let (pos1, neg1) = if abs_id(h) != c {
            (pos0, neg0)
        } else if h < 0 {
            (true, if plain_needed { neg0 } else { false })
        } else {
            (if plain_needed { pos0 } else { false }, true)
        };
        let (pos2, neg2) = if abs_id(l) != c {
            (pos1, neg1)
        } else if l < 0 {
            (true, if plain_needed { neg1 } else { false })
        } else {
            (if plain_needed { pos1 } else { false }, true)
        };
        if neg { neg2 } else { pos2 }
    }
}

/// Some root is `c` itself (plain) or its negation.
pub open spec fn root_needs(roots: Seq<isize>, c: isize, neg: bool) -> bool {
    exists|i: int| 0 <= i < roots.len() && (if neg { #[trigger] roots[i] == -c } else { roots[i] == c })
}

/// Node `c` is needed plain (`neg` false) or negated: a root asks for it, or a parent lists
/// it, parents being decided first (they lie on higher levels).
#[verifier::opaque]
pub open spec fn needed(m: Map<isize, (VarID, isize, isize)>, order: Seq<usize>, t: isize, roots: Seq<isize>, c: isize, neg: bool) -> bool
    decreases edge_level(m, order, c), if neg { 1int } else { 0int },
    when bcdd_wf(m, order, t, roots) && m.contains_key(c)
{
    root_needs(roots, c, neg) || exists|p: isize|
        #![trigger m.contains_key(p)]
        m.contains_key(p) && p != t && edge_level(m, order, p) < edge_level(m, order, c) && listed(
            m[p].1,
            m[p].2,
            c,
            neg,
            needed(m, order, t, roots, p, false),
            needed(m, order, t, roots, p, true),
        )
}

/// Node `p` is listed among the parents needing `c` in the given polarity, where `done` holds
/// the nodes processed so far (an unprocessed node lists only its own edges).
pub open spec fn member_now(m: Map<isize, (VarID, isize, isize)>, order: Seq<usize>, t: isize, roots: Seq<isize>, p: isize, c: isize, neg: bool, done: Set<isize>) -> bool {
    &&& m.contains_key(p)
    &&& p != t
    &&& listed(m[p].1, m[p].2, c, neg, needed(m, order, t, roots, p, false), done.contains(p) && needed(m, order, t, roots, p, true))
}

/// The parent sets of every node are those `member_now` describes.
pub open spec fn sets_ok(
    pos: Map<isize, HashSet<isize>>,
    neg: Map<isize, HashSet<isize>>,
    m: Map<isize, (VarID, isize, isize)>,
    order: Seq<usize>,
    t: isize,
    roots: Seq<isize>,
    done: Set<isize>,
) -> bool {
    &&& forall|c: isize| #[trigger] m.contains_key(c) ==> pos.contains_key(c) && neg.contains_key(c)
    &&& forall|c: isize, p: isize|
        #![trigger pos[c]@.contains(p)]
        #![trigger member_now(m, order, t, roots, p, c, false, done)]
        m.contains_key(c) ==> (pos[c]@.contains(p) <==> member_now(m, order, t, roots, p, c, false, done))
    &&& forall|c: isize, p: isize|
        #![trigger neg[c]@.contains(p)]
        #![trigger member_now(m, order, t, roots, p, c, true, done)]
        m.contains_key(c) ==> (neg[c]@.contains(p) <==> member_now(m, order, t, roots, p, c, true, done))
}

/// Adds parent `p` to the set of node `c`.
fn add_parent(sets: &mut HashMap<isize, HashSet<isize>>, c: isize, p: isize)
    requires
        old(sets)@.contains_key(c),
    ensures
        final(sets)@.dom() == old(sets)@.dom(),
        forall|k: isize| k != c && #[trigger] old(sets)@.contains_key(k) ==> final(sets)@[k] == old(sets)@[k],
        final(sets)@[c]@ == old(sets)@[c]@.insert(p),
{
    let mut st = sets.remove(&c).unwrap();
    st.insert(p);
    sets.insert(c, st);
    proof {
        assert(sets@.dom() =~= old(sets)@.dom());
    }
}

/// Removes parent `p` from the set of node `c`.
fn remove_parent(sets: &mut HashMap<isize, HashSet<isize>>, c: isize, p: isize)
    requires
        old(sets)@.contains_key(c),
    ensures
        final(sets)@.dom() == old(sets)@.dom(),
        forall|k: isize| k != c && #[trigger] old(sets)@.contains_key(k) ==> final(sets)@[k] == old(sets)@[k],
        final(sets)@[c]@ == old(sets)@[c]@.remove(p),
{
    let mut st = sets.remove(&c).unwrap();
    st.remove(&p);
    sets.insert(c, st);
    proof {
        assert(sets@.dom() =~= old(sets)@.dom());
        assert(sets@[c]@ =~= old(sets)@[c]@.remove(p));
    }
}

/// The negated copy of node `p` points to the opposite polarity of the node of edge `e`: `p`
/// joins the parents of that polarity and, unless `p` is needed plain, leaves those of the
/// polarity of `e`.
fn update_child(pos: &mut HashMap<isize, HashSet<isize>>, neg: &mut HashMap<isize, HashSet<isize>>, e: isize, p: isize, normal_needed: bool)
    requires
        e != isize::MIN,
        old(pos)@.contains_key(abs_id(e)),
        old(neg)@.contains_key(abs_id(e)),
    ensures
        final(pos)@.dom() == old(pos)@.dom(),
        final(neg)@.dom() == old(neg)@.dom(),
        forall|k: isize| k != abs_id(e) && #[trigger] old(pos)@.contains_key(k) ==> final(pos)@[k] == old(pos)@[k],
        forall|k: isize| k != abs_id(e) && #[trigger] old(neg)@.contains_key(k) ==> final(neg)@[k] == old(neg)@[k],
        e < 0 ==> final(pos)@[abs_id(e)]@ == old(pos)@[abs_id(e)]@.insert(p)
            && final(neg)@[abs_id(e)]@ == if normal_needed { old(neg)@[abs_id(e)]@ } else { old(neg)@[abs_id(e)]@.remove(p) },
        e >= 0 ==> final(neg)@[abs_id(e)]@ == old(neg)@[abs_id(e)]@.insert(p)
            && final(pos)@[abs_id(e)]@ == if normal_needed { old(pos)@[abs_id(e)]@ } else { old(pos)@[abs_id(e)]@.remove(p) },
{
    let c = if e < 0 { -e } else { e };
    if e < 0 {
        if !normal_needed {
            remove_parent(neg, c, p);
        }
        add_parent(pos, c, p);
    } else {
        if !normal_needed {
            remove_parent(pos, c, p);
        }
        add_parent(neg, c, p);
    }
}

/// Distinct IDs stay distinct as the manager takes them.
proof fn lemma_cast_injective(a: isize, b: isize)
    requires
        a as usize == b as usize,
    ensures
        a == b,
{
    assert(a as usize == b as usize ==> a == b) by (bit_vector);
}

/// A parent lists a node only through an edge to it.
proof fn lemma_listed_edge(h: isize, l: isize, c: isize, neg: bool, x: bool, y: bool)
    requires
        listed(h, l, c, neg, x, y),
    ensures
        abs_id(h) == c || abs_id(l) == c,
{
}

/// The plain copy of node `n`, with IDs as the manager takes them.
pub open spec fn plain_entry(m: Map<isize, (VarID, isize, isize)>, n: isize) -> (NodeID, VarID, NodeID, NodeID) {
    (NodeID(n as usize), m[n].0, NodeID(m[n].1 as usize), NodeID(m[n].2 as usize))
}

/// The negated copy of node `n`: ID and children negated.
pub open spec fn negated_entry(m: Map<isize, (VarID, isize, isize)>, n: isize) -> (NodeID, VarID, NodeID, NodeID) {
    (NodeID((-n) as isize as usize), m[n].0, NodeID((-m[n].1) as isize as usize), NodeID((-m[n].2) as isize as usize))
}

/// `x` is a copy the conversion makes for a node of `done`.
pub open spec fn made_entry(
    m: Map<isize, (VarID, isize, isize)>,
    order: Seq<usize>,
    t: isize,
    roots: Seq<isize>,
    done: Set<isize>,
    x: (NodeID, VarID, NodeID, NodeID),
) -> bool {
    exists|n: isize| #![trigger done.contains(n)] done.contains(n) && (
        (needed(m, order, t, roots, n, false) && x == plain_entry(m, n))
        || (needed(m, order, t, roots, n, true) && x == negated_entry(m, n)))
}

/// The entries the conversion makes for the nodes in `done`.
pub open spec fn entries_for(
    list: Seq<(NodeID, VarID, NodeID, NodeID)>,
    m: Map<isize, (VarID, isize, isize)>,
    order: Seq<usize>,
    t: isize,
    roots: Seq<isize>,
    done: Set<isize>,
) -> bool {
    &&& forall|k: int| 0 <= k < list.len() ==> #[trigger] made_entry(m, order, t, roots, done, list[k])
    &&& forall|n: isize| #[trigger] done.contains(n) && needed(m, order, t, roots, n, false) ==> list.contains(plain_entry(m, n))
    &&& forall|n: isize| #[trigger] done.contains(n) && needed(m, order, t, roots, n, true) ==> list.contains(negated_entry(m, n))
}

/// The IDs of the nodes of the list.
fn node_ids(m: &HashMap<isize, (VarID, isize, isize)>) -> (r: Vec<isize>)
    ensures
        r@.no_duplicates(),
        r@.to_set() == m@.dom(),
{
    let ghost ks = vstd::std_specs::iter::IteratorSpec::remaining(&vstd::std_specs::hash::spec_keys_iter(m));
    proof {
        vstd::std_specs::hash::axiom_spec_keys_iter(m);
    }
    let mut keys: Vec<isize> = Vec::new();
    for k in it: m.keys()
        invariant
            it.seq() == ks,
            keys@.len() == it.index(),
            forall|i: int| 0 <= i < keys@.len() ==> keys@[i] == *ks[i],
    {
        keys.push(*k);
    }
    proof {
        assert(keys@ =~= ks.unref());
    }
    keys
}

/// Processes node `n`, needed negated: its negated copy points to the opposite polarity of
/// both children.
fn mark_children(
    pos: &mut HashMap<isize, HashSet<isize>>,
    neg: &mut HashMap<isize, HashSet<isize>>,
    h: isize,
    l: isize,
    n: isize,
    normal_needed: bool,
    Ghost(m): Ghost<Map<isize, (VarID, isize, isize)>>,
    Ghost(order): Ghost<Seq<usize>>,
    Ghost(t): Ghost<isize>,
    Ghost(roots): Ghost<Seq<isize>>,
    Ghost(done): Ghost<Set<isize>>,
)
    requires
        bcdd_wf(m, order, t, roots),
        sets_ok(old(pos)@, old(neg)@, m, order, t, roots, done),
        !done.contains(n),
        m.contains_key(n),
        n != t,
        m[n].1 == h,
        m[n].2 == l,
        normal_needed == needed(m, order, t, roots, n, false),
        needed(m, order, t, roots, n, true),
    ensures
        sets_ok(final(pos)@, final(neg)@, m, order, t, roots, done.insert(n)),
{
    let ghost p0 = pos@;
    let ghost n0 = neg@;
    update_child(pos, neg, h, n, normal_needed);
    let ghost p1 = pos@;
    let ghost n1 = neg@;
    update_child(pos, neg, l, n, normal_needed);
    proof {
        let d2 = done.insert(n);
        assert forall|c: isize| #[trigger] m.contains_key(c) implies pos@.contains_key(c) && neg@.contains_key(c) by {
            assert(p0.contains_key(c));
        }
        assert forall|c: isize, p: isize|
            #![trigger pos@[c]@.contains(p)]
            #![trigger member_now(m, order, t, roots, p, c, false, d2)]
            m.contains_key(c) implies (pos@[c]@.contains(p) <==> member_now(m, order, t, roots, p, c, false, d2)) by {
            assert(p0[c]@.contains(p) <==> member_now(m, order, t, roots, p, c, false, done));
            assert(n0[c]@.contains(p) <==> member_now(m, order, t, roots, p, c, true, done));
            if p != n {
                assert(member_now(m, order, t, roots, p, c, false, d2) == member_now(m, order, t, roots, p, c, false, done));
            }
        }
        assert forall|c: isize, p: isize|
            #![trigger neg@[c]@.contains(p)]
            #![trigger member_now(m, order, t, roots, p, c, true, d2)]
            m.contains_key(c) implies (neg@[c]@.contains(p) <==> member_now(m, order, t, roots, p, c, true, d2)) by {
            assert(p0[c]@.contains(p) <==> member_now(m, order, t, roots, p, c, false, done));
            assert(n0[c]@.contains(p) <==> member_now(m, order, t, roots, p, c, true, done));
            if p != n {
                assert(member_now(m, order, t, roots, p, c, true, d2) == member_now(m, order, t, roots, p, c, true, done));
            }
        }
    }
}

/// With every node above `n` processed, the parent sets tell whether `n` is needed.
proof fn lemma_needed_from_sets(
    sets: Map<isize, HashSet<isize>>,
    pos: Map<isize, HashSet<isize>>,
    neg: Map<isize, HashSet<isize>>,
    m: Map<isize, (VarID, isize, isize)>,
    order: Seq<usize>,
    t: isize,
    roots: Seq<isize>,
    done: Set<isize>,
    n: isize,
    negated: bool,
)
    requires
        bcdd_wf(m, order, t, roots),
        sets_ok(pos, neg, m, order, t, roots, done),
        sets == if negated { neg } else { pos },
        m.contains_key(n),
        forall|p: isize| #[trigger] m.contains_key(p) && p != t && edge_level(m, order, p) < edge_level(m, order, n) ==> done.contains(p),
    ensures
        (root_needs(roots, n, negated) || !sets[n]@.is_empty()) == needed(m, order, t, roots, n, negated),
{
    reveal(needed);
    if !sets[n]@.is_empty() {
        let p = sets[n]@.choose();
        assert(sets[n]@.contains(p)) by {
            if !sets[n]@.contains(p) {
                assert(sets[n]@ =~= Set::<isize>::empty());
            }
        }
        assert(member_now(m, order, t, roots, p, n, negated, done));
        lemma_listed_edge(m[p].1, m[p].2, n, negated, needed(m, order, t, roots, p, false), done.contains(p) && needed(m, order, t, roots, p, true));
        assert(m.contains_key(p));
        assert(edge_level(m, order, p) < edge_level(m, order, n)) by {
            assert(abs_id(n) == n);
        }
        assert(done.contains(p));
        assert(needed(m, order, t, roots, n, negated));
    }
    if needed(m, order, t, roots, n, negated) && !root_needs(roots, n, negated) {
        let p = choose|p: isize|
            #![trigger m.contains_key(p)]
            m.contains_key(p) && p != t && edge_level(m, order, p) < edge_level(m, order, n) && listed(
                m[p].1,
                m[p].2,
                n,
                negated,
                needed(m, order, t, roots, p, false),
                needed(m, order, t, roots, p, true),
            );
        assert(done.contains(p));
        assert(member_now(m, order, t, roots, p, n, negated, done));
        assert(sets[n]@.contains(p));
    }
}

/// No two entries of the list share an ID.
pub open spec fn ids_distinct(list: Seq<(NodeID, VarID, NodeID, NodeID)>) -> bool {
    forall|k: int, l: int| 0 <= k < l < list.len() ==> (#[trigger] list[k]).0 != (#[trigger] list[l]).0
}

/// The ID of a copy made for a node of `done` is the ID of no copy of `n`, when `n` is a node
/// outside `done`.
proof fn lemma_fresh_id(
    m: Map<isize, (VarID, isize, isize)>,
    order: Seq<usize>,
    t: isize,
    roots: Seq<isize>,
    done: Set<isize>,
    x: (NodeID, VarID, NodeID, NodeID),
    n: isize,
)
    requires
        bcdd_wf(m, order, t, roots),
        made_entry(m, order, t, roots, done, x),
        forall|y: isize| #[trigger] done.contains(y) ==> m.contains_key(y),
        !done.contains(n),
        m.contains_key(n),
    ensures
        x.0 != plain_entry(m, n).0,
        x.0 != negated_entry(m, n).0,
{
    let y = choose|y: isize| #![trigger done.contains(y)] done.contains(y) && (
        (needed(m, order, t, roots, y, false) && x == plain_entry(m, y))
        || (needed(m, order, t, roots, y, true) && x == negated_entry(m, y)));
    assert(m.contains_key(y));
    assert(y > 0 && n > 0 && y != n);
    if x == plain_entry(m, y) {
        if x.0 == plain_entry(m, n).0 {
            lemma_cast_injective(y, n);
        }
        if x.0 == negated_entry(m, n).0 {
            lemma_cast_injective(y, (-n) as isize);
        }
    } else {
        if x.0 == plain_entry(m, n).0 {
            lemma_cast_injective((-y) as isize, n);
        }
        if x.0 == negated_entry(m, n).0 {
            lemma_cast_injective((-y) as isize, (-n) as isize);
        }
    }
}

/// The plain and negated copies of the nodes of a diagram with complemented edges that some
/// parent or root needs, followed by the two terminals (the 1 terminal and its negation, the
/// 0 terminal).
fn convert_bcdd_to_bdd_nodes(bcdd: &Bcdd) -> (r: Vec<(NodeID, VarID, NodeID, NodeID)>)
    requires
        bcdd_wf(bcdd.nodes@, bcdd.varorder@, bcdd.terminal_ids.0, bcdd.roots@),
    ensures
        r@.len() >= 2,
        r@[r@.len() - 2] == (NodeID(bcdd.terminal_ids.0 as usize), VarID(0), NodeID(1), NodeID(1)),
        r@[r@.len() - 1] == (NodeID((-bcdd.terminal_ids.0) as isize as usize), VarID(0), NodeID(0), NodeID(0)),
        entries_for(r@.drop_last().drop_last(), bcdd.nodes@, bcdd.varorder@, bcdd.terminal_ids.0, bcdd.roots@,
            bcdd.nodes@.dom().remove(bcdd.terminal_ids.0)),
        ids_distinct(r@),
{
    let ghost m = bcdd.nodes@;
    let ghost order = bcdd.varorder@;
    let ghost roots = bcdd.roots@;
    let t = bcdd.terminal_ids.0;
    let keys = node_ids(&bcdd.nodes);
    // The parents of each node that need it plain and negated
    let mut pos: HashMap<isize, HashSet<isize>> = HashMap::new();
    let mut neg: HashMap<isize, HashSet<isize>> = HashMap::new();
    let mut i: usize = 0;
    while i < keys.len()
        invariant
            i <= keys@.len(),
            keys@.no_duplicates(),
            keys@.to_set() == m.dom(),
            forall|c: isize| #[trigger] pos@.contains_key(c) <==> exists|j: int| 0 <= j < i && keys@[j] == c,
            forall|c: isize| #[trigger] neg@.contains_key(c) <==> exists|j: int| 0 <= j < i && keys@[j] == c,
            forall|c: isize| #[trigger] pos@.contains_key(c) ==> pos@[c]@ == Set::<isize>::empty(),
            forall|c: isize| #[trigger] neg@.contains_key(c) ==> neg@[c]@ == Set::<isize>::empty(),
        decreases keys@.len() - i,
    {
        pos.insert(keys[i], HashSet::new());
        neg.insert(keys[i], HashSet::new());
        proof {
            assert forall|c: isize| #[trigger] pos@.contains_key(c) <==> exists|j: int| 0 <= j < i + 1 && keys@[j] == c by {
                if c == keys@[i as int] {
                    assert(0 <= i < i + 1 && keys@[i as int] == c);
                }
                if exists|j: int| 0 <= j < i + 1 && keys@[j] == c {
                    let j = choose|j: int| 0 <= j < i + 1 && keys@[j] == c;
                    if j < i {
                        assert(exists|j2: int| 0 <= j2 < i && keys@[j2] == c);
                    }
                }
            }
            assert forall|c: isize| #[trigger] neg@.contains_key(c) <==> exists|j: int| 0 <= j < i + 1 && keys@[j] == c by {
                if c == keys@[i as int] {
                    assert(0 <= i < i + 1 && keys@[i as int] == c);
                }
                if exists|j: int| 0 <= j < i + 1 && keys@[j] == c {
                    let j = choose|j: int| 0 <= j < i + 1 && keys@[j] == c;
                    if j < i {
                        assert(exists|j2: int| 0 <= j2 < i && keys@[j2] == c);
                    }
                }
            }
        }
        i = i + 1;
    }
    proof {
        assert forall|c: isize| #[trigger] m.contains_key(c) implies pos@.contains_key(c) && neg@.contains_key(c) by {
            assert(keys@.to_set().contains(c));
        }
    }
    let mut i: usize = 0;
    while i < keys.len()
        invariant
            i <= keys@.len(),
            keys@.no_duplicates(),
            keys@.to_set() == m.dom(),
            bcdd_wf(m, order, t, roots),
            m == bcdd.nodes@,
            t == bcdd.terminal_ids.0,
            forall|c: isize| #[trigger] m.contains_key(c) ==> pos@.contains_key(c) && neg@.contains_key(c),
            forall|c: isize, p: isize| #![trigger pos@[c]@.contains(p)] m.contains_key(c) ==> (pos@[c]@.contains(p) <==>
                (exists|j: int| 0 <= j < i && keys@[j] == p) && member_now(m, order, t, roots, p, c, false, Set::empty())),
            forall|c: isize, p: isize| #![trigger neg@[c]@.contains(p)] m.contains_key(c) ==> (neg@[c]@.contains(p) <==>
                (exists|j: int| 0 <= j < i && keys@[j] == p) && member_now(m, order, t, roots, p, c, true, Set::empty())),
        decreases keys@.len() - i,
    {
        let p = keys[i];
        let ghost pos0 = pos@;
        let ghost neg0 = neg@;
        proof {
            assert(keys@.to_set().contains(p));
        }
        if p != t {
            let (_v, h, l) = *bcdd.nodes.get(&p).unwrap();
            let hc = if h < 0 { -h } else { h };
            let lc = if l < 0 { -l } else { l };
            if h < 0 {
                add_parent(&mut neg, hc, p);
            } else {
                add_parent(&mut pos, hc, p);
            }
            if l < 0 {
                add_parent(&mut neg, lc, p);
            } else {
                add_parent(&mut pos, lc, p);
            }
        }
        proof {
            assert forall|c: isize| #[trigger] m.contains_key(c) implies pos@.contains_key(c) && neg@.contains_key(c) by {
                assert(pos0.contains_key(c) && neg0.contains_key(c));
            }
            assert forall|c: isize, q: isize| #![trigger pos@[c]@.contains(q)] m.contains_key(c) implies (pos@[c]@.contains(q) <==>
                (exists|j: int| 0 <= j < i + 1 && keys@[j] == q) && member_now(m, order, t, roots, q, c, false, Set::empty())) by {
                assert(pos0[c]@.contains(q) <==> (exists|j: int| 0 <= j < i && keys@[j] == q) && member_now(m, order, t, roots, q, c, false, Set::empty()));
                if q == p {
                    assert(0 <= i < i + 1 && keys@[i as int] == q);
                    if exists|j: int| 0 <= j < i && keys@[j] == q {
                        let j = choose|j: int| 0 <= j < i && keys@[j] == q;
                        assert(keys@[j] == keys@[i as int]);
                    }
                } else {
                    if exists|j: int| 0 <= j < i + 1 && keys@[j] == q {
                        let j = choose|j: int| 0 <= j < i + 1 && keys@[j] == q;
                        assert(exists|j2: int| 0 <= j2 < i && keys@[j2] == q);
                    }
                }
            }
            assert forall|c: isize, q: isize| #![trigger neg@[c]@.contains(q)] m.contains_key(c) implies (neg@[c]@.contains(q) <==>
                (exists|j: int| 0 <= j < i + 1 && keys@[j] == q) && member_now(m, order, t, roots, q, c, true, Set::empty())) by {
                assert(neg0[c]@.contains(q) <==> (exists|j: int| 0 <= j < i && keys@[j] == q) && member_now(m, order, t, roots, q, c, true, Set::empty()));
                if q == p {
                    assert(0 <= i < i + 1 && keys@[i as int] == q);
                    if exists|j: int| 0 <= j < i && keys@[j] == q {
                        let j = choose|j: int| 0 <= j < i && keys@[j] == q;
                        assert(keys@[j] == keys@[i as int]);
                    }
                } else {
                    if exists|j: int| 0 <= j < i + 1 && keys@[j] == q {
                        let j = choose|j: int| 0 <= j < i + 1 && keys@[j] == q;
                        assert(exists|j2: int| 0 <= j2 < i && keys@[j2] == q);
                    }
                }
            }
        }
        i = i + 1;
    }
    let ghost empty_done = Set::<isize>::empty();
    proof {
        assert forall|c: isize, q: isize|
            #![trigger pos@[c]@.contains(q)]
            #![trigger member_now(m, order, t, roots, q, c, false, empty_done)]
            m.contains_key(c) implies (pos@[c]@.contains(q) <==> member_now(m, order, t, roots, q, c, false, empty_done)) by {
            if member_now(m, order, t, roots, q, c, false, empty_done) {
                assert(keys@.to_set().contains(q));
            }
        }
        assert forall|c: isize, q: isize|
            #![trigger neg@[c]@.contains(q)]
            #![trigger member_now(m, order, t, roots, q, c, true, empty_done)]
            m.contains_key(c) implies (neg@[c]@.contains(q) <==> member_now(m, order, t, roots, q, c, true, empty_done)) by {
            if member_now(m, order, t, roots, q, c, true, empty_done) {
                assert(keys@.to_set().contains(q));
            }
        }
    }
    // The roots, plain and negated
    let mut pos_roots: HashSet<isize> = HashSet::new();
    let mut neg_roots: HashSet<isize> = HashSet::new();
    let mut i: usize = 0;
    while i < bcdd.roots.len()
        invariant
            i <= roots.len(),
            roots == bcdd.roots@,
            bcdd_wf(m, order, t, roots),
            forall|c: isize| #[trigger] pos_roots@.contains(c) <==> c >= 0 && exists|j: int| 0 <= j < i && roots[j] == c,
            forall|c: isize| #[trigger] neg_roots@.contains(c) <==> c > 0 && exists|j: int| 0 <= j < i && roots[j] == -c,
        decreases roots.len() - i,
    {
        let r = bcdd.roots[i];
        let ghost pr0 = pos_roots@;
        let ghost nr0 = neg_roots@;
        proof {
            assert(edge_ok(m, roots[i as int]));
        }
        if r < 0 {
            neg_roots.insert(-r);
        } else {
            pos_roots.insert(r);
        }
        proof {
            assert forall|c: isize| #[trigger] pos_roots@.contains(c) <==> c >= 0 && exists|j: int| 0 <= j < i + 1 && roots[j] == c by {
                assert(pr0.contains(c) <==> c >= 0 && exists|j: int| 0 <= j < i && roots[j] == c);
                if c == r && r >= 0 {
                    assert(0 <= i < i + 1 && roots[i as int] == c);
                }
                if exists|j: int| 0 <= j < i + 1 && roots[j] == c {
                    let j = choose|j: int| 0 <= j < i + 1 && roots[j] == c;
                    if j < i {
                        assert(exists|j2: int| 0 <= j2 < i && roots[j2] == c);
                    }
                }
            }
            assert forall|c: isize| #[trigger] neg_roots@.contains(c) <==> c > 0 && exists|j: int| 0 <= j < i + 1 && roots[j] == -c by {
                assert(nr0.contains(c) <==> c > 0 && exists|j: int| 0 <= j < i && roots[j] == -c);
                if c == -r && r < 0 {
                    assert(0 <= i < i + 1 && roots[i as int] == -c);
                }
                if exists|j: int| 0 <= j < i + 1 && roots[j] == -c {
                    let j = choose|j: int| 0 <= j < i + 1 && roots[j] == -c;
                    if j < i {
                        assert(exists|j2: int| 0 <= j2 < i && roots[j2] == -c);
                    }
                }
            }
        }
        i = i + 1;
    }
    // The inner nodes, top down
    let mut inner: Vec<isize> = Vec::new();
    let mut weights: Vec<u128> = Vec::new();
    let mut i: usize = 0;
    while i < keys.len()
        invariant
            i <= keys@.len(),
            keys@.no_duplicates(),
            keys@.to_set() == m.dom(),
            bcdd_wf(m, order, t, roots),
            m == bcdd.nodes@,
            order == bcdd.varorder@,
            t == bcdd.terminal_ids.0,
            inner@.len() == weights@.len(),
            inner@.no_duplicates(),
            forall|k: int| 0 <= k < inner@.len() ==> #[trigger] weights@[k] == edge_level(m, order, inner@[k]),
            forall|c: isize| #[trigger] inner@.contains(c) <==> c != t && exists|j: int| 0 <= j < i && keys@[j] == c,
        decreases keys@.len() - i,
    {
        let p = keys[i];
        let ghost inner0 = inner@;
        proof {
            assert(keys@.to_set().contains(p));
        }
        if p != t {
            let (v, _h, _l) = *bcdd.nodes.get(&p).unwrap();
            proof {
                assert(!inner@.contains(p)) by {
                    if inner@.contains(p) {
                        let j = choose|j: int| 0 <= j < i && keys@[j] == p;
                        assert(keys@[j] == keys@[i as int]);
                    }
                }
            }
            inner.push(p);
            weights.push(bcdd.varorder[v.0] as u128);
        }
        proof {
            assert forall|c: isize| #[trigger] inner@.contains(c) <==> c != t && exists|j: int| 0 <= j < i + 1 && keys@[j] == c by {
                assert(inner0.contains(c) <==> c != t && exists|j: int| 0 <= j < i && keys@[j] == c);
                if inner@.contains(c) && c != p {
                    let k = choose|k: int| 0 <= k < inner@.len() && inner@[k] == c;
                    assert(inner0[k] == c);
                }
                if inner0.contains(c) {
                    let k = choose|k: int| 0 <= k < inner0.len() && inner0[k] == c;
                    assert(inner@[k] == c);
                }
                if c == p && p != t {
                    assert(inner@[inner@.len() - 1] == c);
                    assert(0 <= i < i + 1 && keys@[i as int] == c);
                }
                if c != t && exists|j: int| 0 <= j < i + 1 && keys@[j] == c {
                    let j = choose|j: int| 0 <= j < i + 1 && keys@[j] == c;
                    if j < i {
                        assert(exists|j2: int| 0 <= j2 < i && keys@[j2] == c);
                    }
                }
            }
        }
        i = i + 1;
    }
    let idx = sorted_indices(&weights);
    let mut list: Vec<(NodeID, VarID, NodeID, NodeID)> = Vec::new();
    let ghost mut done = Set::<isize>::empty();
    let mut q: usize = 0;
    while q < idx.len()
        invariant
            q <= idx@.len(),
            bcdd_wf(m, order, t, roots),
            m == bcdd.nodes@,
            order == bcdd.varorder@,
            t == bcdd.terminal_ids.0,
            roots == bcdd.roots@,
            idx@.len() == inner@.len(),
            inner@.len() == weights@.len(),
            inner@.no_duplicates(),
            forall|k: int| 0 <= k < inner@.len() ==> #[trigger] weights@[k] == edge_level(m, order, inner@[k]),
            forall|c: isize| #[trigger] inner@.contains(c) <==> c != t && m.contains_key(c),
            idx@.no_duplicates(),
            forall|k: int| 0 <= k < idx@.len() ==> #[trigger] idx@[k] < weights@.len(),
            forall|j: int| 0 <= j < weights@.len() ==> #[trigger] idx@.contains(j as usize),
            forall|k: int, l: int| 0 <= k < l < idx@.len() ==> index_before(weights@, #[trigger] idx@[k] as int, #[trigger] idx@[l] as int),
            forall|c: isize| c > 0 ==> #[trigger] pos_roots@.contains(c) == root_needs(roots, c, false),
            forall|c: isize| c > 0 ==> #[trigger] neg_roots@.contains(c) == root_needs(roots, c, true),
            sets_ok(pos@, neg@, m, order, t, roots, done),
            forall|x: isize| #[trigger] done.contains(x) <==> exists|k: int| 0 <= k < q && inner@[idx@[k] as int] == x,
            entries_for(list@, m, order, t, roots, done),
            ids_distinct(list@),
            forall|y: isize| #[trigger] done.contains(y) ==> m.contains_key(y) && y != t,
        decreases idx@.len() - q,
    {
        let n = inner[idx[q]];
        let ghost j = idx@[q as int] as int;
        proof {
            assert(inner@.contains(n));
            assert forall|p: isize| #[trigger] m.contains_key(p) && p != t && edge_level(m, order, p) < edge_level(m, order, n) implies done.contains(p) by {
                assert(inner@.contains(p));
                let jp = choose|jp: int| 0 <= jp < inner@.len() && inner@[jp] == p;
                assert(idx@.contains(jp as usize));
                let kp = choose|kp: int| 0 <= kp < idx@.len() && idx@[kp] == jp as usize;
                if kp >= q {
                    if kp == q {
                        assert(idx@[kp] == idx@[q as int]);
                    } else {
                        assert(index_before(weights@, idx@[q as int] as int, idx@[kp] as int));
                    }
                }
                assert(inner@[idx@[kp] as int] == p);
            }
            assert(!done.contains(n)) by {
                if done.contains(n) {
                    let k = choose|k: int| 0 <= k < q && inner@[idx@[k] as int] == n;
                    assert(idx@[k] != idx@[q as int]);
                }
            }
            lemma_needed_from_sets(pos@, pos@, neg@, m, order, t, roots, done, n, false);
            lemma_needed_from_sets(neg@, pos@, neg@, m, order, t, roots, done, n, true);
        }
        let (v, h, l) = *bcdd.nodes.get(&n).unwrap();
        let normal_needed = pos_roots.contains(&n) || !pos.get(&n).unwrap().is_empty();
        let inverted_needed = neg_roots.contains(&n) || !neg.get(&n).unwrap().is_empty();
        let ghost list0 = list@;
        if normal_needed {
            list.push((NodeID(n as usize), v, NodeID(h as usize), NodeID(l as usize)));
        }
        if inverted_needed {
            mark_children(&mut pos, &mut neg, h, l, n, normal_needed, Ghost(m), Ghost(order), Ghost(t), Ghost(roots), Ghost(done));
            list.push((NodeID((-n) as usize), v, NodeID((-h) as usize), NodeID((-l) as usize)));
        } else {
            proof {
                let d2 = done.insert(n);
                assert forall|c: isize, p: isize|
                    #![trigger pos@[c]@.contains(p)]
                    #![trigger member_now(m, order, t, roots, p, c, false, d2)]
                    m.contains_key(c) implies (pos@[c]@.contains(p) <==> member_now(m, order, t, roots, p, c, false, d2)) by {
                    assert(member_now(m, order, t, roots, p, c, false, d2) == member_now(m, order, t, roots, p, c, false, done));
                }
                assert forall|c: isize, p: isize|
                    #![trigger neg@[c]@.contains(p)]
                    #![trigger member_now(m, order, t, roots, p, c, true, d2)]
                    m.contains_key(c) implies (neg@[c]@.contains(p) <==> member_now(m, order, t, roots, p, c, true, d2)) by {
                    assert(member_now(m, order, t, roots, p, c, true, d2) == member_now(m, order, t, roots, p, c, true, done));
                }
            }
        }
        proof {
            let d2 = done.insert(n);
            assert forall|k: int| 0 <= k < list@.len() implies #[trigger] made_entry(m, order, t, roots, d2, list@[k]) by {
                if k < list0.len() {
                    assert(list@[k] == list0[k]);
                    assert(made_entry(m, order, t, roots, done, list0[k]));
                    let x = choose|x: isize| #![trigger done.contains(x)] done.contains(x) && (
                        (needed(m, order, t, roots, x, false) && list0[k] == plain_entry(m, x))
                        || (needed(m, order, t, roots, x, true) && list0[k] == negated_entry(m, x)));
                    assert(d2.contains(x));
                } else {
                    assert(d2.contains(n));
                }
            }
            assert forall|x: isize| #[trigger] d2.contains(x) && needed(m, order, t, roots, x, false) implies list@.contains(plain_entry(m, x)) by {
                if x != n {
                    assert(list0.contains(plain_entry(m, x)));
                    let k = choose|k: int| 0 <= k < list0.len() && list0[k] == plain_entry(m, x);
                    assert(list@[k] == list0[k]);
                } else {
                    assert(list@[list0.len() as int] == plain_entry(m, x));
                }
            }
            assert forall|x: isize| #[trigger] d2.contains(x) && needed(m, order, t, roots, x, true) implies list@.contains(negated_entry(m, x)) by {
                if x != n {
                    assert(list0.contains(negated_entry(m, x)));
                    let k = choose|k: int| 0 <= k < list0.len() && list0[k] == negated_entry(m, x);
                    assert(list@[k] == list0[k]);
                } else {
                    assert(list@[list@.len() - 1] == negated_entry(m, x));
                }
            }
            assert(ids_distinct(list@)) by {
                assert forall|k: int, l: int| 0 <= k < l < list@.len() implies (#[trigger] list@[k]).0 != (#[trigger] list@[l]).0 by {
                    if l >= list0.len() {
                        assert(made_entry(m, order, t, roots, done, list@[k]) || k >= list0.len()) by {
                            if k < list0.len() {
                                assert(list@[k] == list0[k]);
                            }
                        }
                        if k < list0.len() {
                            assert(list@[k] == list0[k]);
                            lemma_fresh_id(m, order, t, roots, done, list0[k], n);
                        } else {
                            assert(n > 0);
                            if list@[k].0 == list@[l].0 {
                                lemma_cast_injective(n, (-n) as isize);
                            }
                        }
                    } else {
                        assert(list@[k] == list0[k] && list@[l] == list0[l]);
                    }
                }
            }
            assert forall|x: isize| #[trigger] d2.contains(x) <==> exists|k: int| 0 <= k < q + 1 && inner@[idx@[k] as int] == x by {
                if x == n {
                    assert(inner@[idx@[q as int] as int] == x);
                }
                if exists|k: int| 0 <= k < q + 1 && inner@[idx@[k] as int] == x {
                    let k = choose|k: int| 0 <= k < q + 1 && inner@[idx@[k] as int] == x;
                    if k < q {
                        assert(done.contains(x));
                    }
                }
            }
            done = d2;
        }
        q = q + 1;
    }
    let ghost body = list@;
    list.push((NodeID(t as usize), VarID(0), NodeID(1), NodeID(1)));
    list.push((NodeID((-t) as usize), VarID(0), NodeID(0), NodeID(0)));
    proof {
        assert(list@.drop_last().drop_last() =~= body);
        assert(t > 0);
        assert(ids_distinct(list@)) by {
            assert forall|k: int, l: int| 0 <= k < l < list@.len() implies (#[trigger] list@[k]).0 != (#[trigger] list@[l]).0 by {
                if l >= body.len() {
                    if k < body.len() {
                        assert(list@[k] == body[k]);
                        assert(made_entry(m, order, t, roots, done, body[k]));
                        let y = choose|y: isize| #![trigger done.contains(y)] done.contains(y) && (
                            (needed(m, order, t, roots, y, false) && body[k] == plain_entry(m, y))
                            || (needed(m, order, t, roots, y, true) && body[k] == negated_entry(m, y)));
                        assert(m.contains_key(y) && y != t && y > 0);
                        if list@[k].0 == list@[l].0 {
                            if body[k] == plain_entry(m, y) {
                                if l == body.len() {
                                    lemma_cast_injective(y, t);
                                } else {
                                    lemma_cast_injective(y, (-t) as isize);
                                }
                            } else {
                                if l == body.len() {
                                    lemma_cast_injective((-y) as isize, t);
                                } else {
                                    lemma_cast_injective((-y) as isize, (-t) as isize);
                                }
                            }
                        }
                    } else {
                        if list@[k].0 == list@[l].0 {
                            lemma_cast_injective(t, (-t) as isize);
                        }
                    }
                } else {
                    assert(list@[k] == body[k] && list@[l] == body[l]);
                }
            }
        }
        assert(done =~= m.dom().remove(t)) by {
            assert forall|x: isize| done.contains(x) <==> m.dom().remove(t).contains(x) by {
                if m.dom().remove(t).contains(x) {
                    assert(inner@.contains(x));
                    let jx = choose|jx: int| 0 <= jx < inner@.len() && inner@[jx] == x;
                    assert(idx@.contains(jx as usize));
                    let kx = choose|kx: int| 0 <= kx < idx@.len() && idx@[kx] == jx as usize;
                    assert(inner@[idx@[kx] as int] == x);
                }
                if done.contains(x) {
                    let k = choose|k: int| 0 <= k < q && inner@[idx@[k] as int] == x;
                    assert(inner@.contains(x));
                }
            }
        }
    }
    list
}

/// Where the edge `e` leads, the conversion has the copy it needs: `e` leads to the terminal,
/// or to a node needed in the polarity of `e`.
pub open spec fn child_copy(m: Map<isize, (VarID, isize, isize)>, order: Seq<usize>, t: isize, roots: Seq<isize>, e: isize) -> bool {
    abs_id(e) == t || needed(m, order, t, roots, abs_id(e), e < 0)
}

/// Every copy the conversion makes finds the copies of its children it points to (the plain
/// copy points to the children, the negated copy to their negations).
pub open spec fn copies_closed(m: Map<isize, (VarID, isize, isize)>, order: Seq<usize>, t: isize, roots: Seq<isize>) -> bool {
    forall|n: isize| #[trigger] m.contains_key(n) && n != t ==> {
        &&& needed(m, order, t, roots, n, false) ==> child_copy(m, order, t, roots, m[n].1) && child_copy(m, order, t, roots, m[n].2)
        &&& needed(m, order, t, roots, n, true) ==> child_copy(m, order, t, roots, (-m[n].1) as isize)
            && child_copy(m, order, t, roots, (-m[n].2) as isize)
    }
}

/// The converted list: the copies of the nodes, then the two terminals, IDs distinct.
#[verifier::opaque]
pub open spec fn converted(list: Seq<(NodeID, VarID, NodeID, NodeID)>, m: Map<isize, (VarID, isize, isize)>, order: Seq<usize>, t: isize, roots: Seq<isize>) -> bool {
    &&& list.len() >= 2
    &&& list[list.len() - 2] == (NodeID(t as usize), VarID(0), NodeID(1), NodeID(1))
    &&& list[list.len() - 1] == (NodeID((-t) as isize as usize), VarID(0), NodeID(0), NodeID(0))
    &&& entries_for(list.drop_last().drop_last(), m, order, t, roots, m.dom().remove(t))
    &&& ids_distinct(list)
}

/// The terminals of the converted list: the 1 terminal and its negation.
pub open spec fn converted_terminals(t: isize) -> (NodeID, NodeID) {
    (NodeID(t as usize), NodeID((-t) as isize as usize))
}

/// The entry with the ID of edge `e` is the copy of its node in the polarity of `e`.
proof fn lemma_copy_entry(list: Seq<(NodeID, VarID, NodeID, NodeID)>, m: Map<isize, (VarID, isize, isize)>, order: Seq<usize>, t: isize, roots: Seq<isize>, e: isize)
    requires
        bcdd_wf(m, order, t, roots),
        converted(list, m, order, t, roots),
        edge_ok(m, e),
        abs_id(e) != t,
        needed(m, order, t, roots, abs_id(e), e < 0),
    ensures
        crate::store::in_list(list, e as usize),
        list[crate::store::entry_index(list, e as usize)] == if e > 0 { plain_entry(m, e) } else { negated_entry(m, abs_id(e)) },
{
    reveal(converted);
    let body = list.drop_last().drop_last();
    let c = abs_id(e);
    assert(m.dom().remove(t).contains(c));
    let x = if e > 0 { plain_entry(m, e) } else { negated_entry(m, c) };
    assert(body.contains(x));
    let k = choose|k: int| 0 <= k < body.len() && body[k] == x;
    assert(list[k] == x);
    assert(x.0.0 == e as usize) by {
        if e < 0 {
            assert((-c) as isize == e);
        }
    }
    assert(crate::store::in_list(list, e as usize));
    let k2 = crate::store::entry_index(list, e as usize);
    if k2 != k {
        if k < k2 {
            assert(list[k].0 != list[k2].0);
        } else {
            assert(list[k2].0 != list[k].0);
        }
    }
}

/// The converted list describes an ordered diagram.
proof fn lemma_converted_wf(list: Seq<(NodeID, VarID, NodeID, NodeID)>, m: Map<isize, (VarID, isize, isize)>, order: Seq<usize>, t: isize, roots: Seq<isize>)
    requires
        bcdd_wf(m, order, t, roots),
        copies_closed(m, order, t, roots),
        converted(list, m, order, t, roots),
    ensures
        crate::store::list_wf(list, order, converted_terminals(t)),
{
    reveal(converted);
    let tt = converted_terminals(t);
    let body = list.drop_last().drop_last();
    assert(t > 0);
    assert(tt.0 != tt.1) by {
        if tt.0 == tt.1 {
            lemma_cast_injective(t, (-t) as isize);
        }
    }
    assert forall|k: int| 0 <= k < list.len() implies (#[trigger] list[k]).1.0 < order.len() by {
        if k < body.len() {
            assert(list[k] == body[k]);
            assert(made_entry(m, order, t, roots, m.dom().remove(t), body[k]));
        }
    }
    assert forall|k: int| 0 <= k < list.len() && !crate::store::is_terminal(tt, (#[trigger] list[k]).0.0) implies {
        let x = list[k];
        &&& 1 <= x.1.0
        &&& crate::store::known(list, tt, x.2.0)
        &&& crate::store::known(list, tt, x.3.0)
        &&& crate::store::list_level(list, order, tt, x.2.0) > order[x.1.0 as int]
        &&& crate::store::list_level(list, order, tt, x.3.0) > order[x.1.0 as int]
    } by {
        if k >= list.len() - 2 {
            assert(crate::store::is_terminal(tt, list[k].0.0));
        } else {
            lemma_converted_entry(list, m, order, t, roots, k);
        }
    }
}

/// An inner entry of the converted list is the plain or negated copy of a needed node.
proof fn lemma_entry_origin(list: Seq<(NodeID, VarID, NodeID, NodeID)>, m: Map<isize, (VarID, isize, isize)>, order: Seq<usize>, t: isize, roots: Seq<isize>, k: int)
    -> (r: (isize, bool))
    requires
        converted(list, m, order, t, roots),
        0 <= k < list.len() - 2,
    ensures
        m.contains_key(r.0),
        r.0 != t,
        r.1 ==> needed(m, order, t, roots, r.0, false) && list[k] == plain_entry(m, r.0),
        !r.1 ==> needed(m, order, t, roots, r.0, true) && list[k] == negated_entry(m, r.0),
{
    reveal(converted);
    let body = list.drop_last().drop_last();
    assert(list[k] == body[k]);
    let done = m.dom().remove(t);
    assert(made_entry(m, order, t, roots, done, body[k]));
    let y = choose|y: isize| #![trigger done.contains(y)] done.contains(y) && (
        (needed(m, order, t, roots, y, false) && body[k] == plain_entry(m, y))
        || (needed(m, order, t, roots, y, true) && body[k] == negated_entry(m, y)));
    if needed(m, order, t, roots, y, false) && body[k] == plain_entry(m, y) {
        (y, true)
    } else {
        (y, false)
    }
}

/// An inner entry of the converted list points to known entries on lower levels.
proof fn lemma_converted_entry(list: Seq<(NodeID, VarID, NodeID, NodeID)>, m: Map<isize, (VarID, isize, isize)>, order: Seq<usize>, t: isize, roots: Seq<isize>, k: int)
    requires
        bcdd_wf(m, order, t, roots),
        copies_closed(m, order, t, roots),
        converted(list, m, order, t, roots),
        0 <= k < list.len() - 2,
    ensures
        ({
            let x = list[k];
            let tt = converted_terminals(t);
            &&& 1 <= x.1.0
            &&& crate::store::known(list, tt, x.2.0)
            &&& crate::store::known(list, tt, x.3.0)
            &&& crate::store::list_level(list, order, tt, x.2.0) > order[x.1.0 as int]
            &&& crate::store::list_level(list, order, tt, x.3.0) > order[x.1.0 as int]
        }),
{
    let (y, plain) = lemma_entry_origin(list, m, order, t, roots, k);
    let v = m[y].0.0 as int;
    assert(order[v] < order[0]) by {
        assert(order[v] != order[0]);
    }
    let (eh, el) = if plain {
        (m[y].1, m[y].2)
    } else {
        ((-m[y].1) as isize, (-m[y].2) as isize)
    };
    assert(edge_level(m, order, eh) > order[v] && edge_level(m, order, el) > order[v]);
    assert(child_copy(m, order, t, roots, eh) && child_copy(m, order, t, roots, el));
    assert(list[k].2.0 == eh as usize && list[k].3.0 == el as usize);
    lemma_edge_copy_known(list, m, order, t, roots, eh);
    lemma_edge_copy_known(list, m, order, t, roots, el);
}

/// The copy an edge needs is in the list, on the level of the edge's node.
proof fn lemma_edge_copy_known(list: Seq<(NodeID, VarID, NodeID, NodeID)>, m: Map<isize, (VarID, isize, isize)>, order: Seq<usize>, t: isize, roots: Seq<isize>, e: isize)
    requires
        bcdd_wf(m, order, t, roots),
        converted(list, m, order, t, roots),
        edge_ok(m, e),
        child_copy(m, order, t, roots, e),
    ensures
        crate::store::known(list, converted_terminals(t), e as usize),
        crate::store::list_level(list, order, converted_terminals(t), e as usize) == if abs_id(e) == t {
            order[0] as int
        } else {
            edge_level(m, order, e)
        },
{
    if abs_id(e) == t {
        if e < 0 {
            assert((-t) as isize == e);
        }
    } else {
        lemma_copy_entry(list, m, order, t, roots, e);
        let tt = converted_terminals(t);
        assert(!crate::store::is_terminal(tt, e as usize)) by {
            if e as usize == tt.0.0 {
                lemma_cast_injective(e, t);
            }
            if e as usize == tt.1.0 {
                lemma_cast_injective(e, (-t) as isize);
            }
        }
    }
}

/// The terminal stands for 1, a negated edge for the negation, and a node follows its high
/// child where its variable is true.
proof fn lemma_bcdd_sem_step(m: Map<isize, (VarID, isize, isize)>, order: Seq<usize>, t: isize, roots: Seq<isize>, e: isize, a: crate::semantics::Assignment)
    requires
        bcdd_wf(m, order, t, roots),
        edge_ok(m, e),
    ensures
        e == t ==> bcdd_sem(m, order, t, roots, e, a),
        e < 0 ==> bcdd_sem(m, order, t, roots, e, a) == !bcdd_sem(m, order, t, roots, abs_id(e), a),
        e > 0 && e != t ==> bcdd_sem(m, order, t, roots, e, a) == if a(m[e].0.0) {
            bcdd_sem(m, order, t, roots, m[e].1, a)
        } else {
            bcdd_sem(m, order, t, roots, m[e].2, a)
        },
{
    reveal(bcdd_sem);
}

/// A negated edge stands for the negated function.
proof fn lemma_negated_sem(m: Map<isize, (VarID, isize, isize)>, order: Seq<usize>, t: isize, roots: Seq<isize>, e: isize, a: crate::semantics::Assignment)
    requires
        bcdd_wf(m, order, t, roots),
        edge_ok(m, e),
    ensures
        edge_ok(m, (-e) as isize),
        bcdd_sem(m, order, t, roots, (-e) as isize, a) == !bcdd_sem(m, order, t, roots, e, a),
{
    assert(abs_id(e) > 0);
    assert(abs_id((-e) as isize) == abs_id(e));
    lemma_bcdd_sem_step(m, order, t, roots, e, a);
    lemma_bcdd_sem_step(m, order, t, roots, (-e) as isize, a);
}

/// The copies a needed copy of node `c` points to exist.
proof fn lemma_closed_children(m: Map<isize, (VarID, isize, isize)>, order: Seq<usize>, t: isize, roots: Seq<isize>, c: isize, negated: bool)
    requires
        copies_closed(m, order, t, roots),
        m.contains_key(c),
        c != t,
        needed(m, order, t, roots, c, negated),
    ensures
        !negated ==> child_copy(m, order, t, roots, m[c].1) && child_copy(m, order, t, roots, m[c].2),
        negated ==> child_copy(m, order, t, roots, (-m[c].1) as isize) && child_copy(m, order, t, roots, (-m[c].2) as isize),
{
}

/// Following the converted list gives the function the edge stands for.
#[verifier::spinoff_prover]
proof fn lemma_converted_sem(list: Seq<(NodeID, VarID, NodeID, NodeID)>, m: Map<isize, (VarID, isize, isize)>, order: Seq<usize>, t: isize, roots: Seq<isize>, e: isize, a: crate::semantics::Assignment)
    requires
        bcdd_wf(m, order, t, roots),
        copies_closed(m, order, t, roots),
        converted(list, m, order, t, roots),
        crate::store::list_wf(list, order, converted_terminals(t)),
        edge_ok(m, e),
        child_copy(m, order, t, roots, e),
    ensures
        crate::store::known(list, converted_terminals(t), e as usize),
        crate::store::list_sem(list, order, converted_terminals(t), e as usize, a) == bcdd_sem(m, order, t, roots, e, a),
    decreases order[0] - edge_level(m, order, e),
{
    let tt = converted_terminals(t);
    lemma_edge_copy_known(list, m, order, t, roots, e);
    crate::store::lemma_list_sem_terminals(list, order, tt, a);
    lemma_bcdd_sem_step(m, order, t, roots, e, a);
    assert(t > 0);
    if abs_id(e) == t {
        if e < 0 {
            assert((-t) as isize == e);
            if e as usize == tt.0.0 {
                lemma_cast_injective(e, t);
            }
            lemma_bcdd_sem_step(m, order, t, roots, t, a);
        }
    } else {
        lemma_copy_entry(list, m, order, t, roots, e);
        let c = abs_id(e);
        let n = m[c];
        assert(m.contains_key(c) && c != t);
        assert(!crate::store::is_terminal(tt, e as usize)) by {
            if e as usize == tt.0.0 {
                lemma_cast_injective(e, t);
            }
            if e as usize == tt.1.0 {
                lemma_cast_injective(e, (-t) as isize);
            }
        }
        crate::store::lemma_list_sem_inner(list, order, tt, e as usize, a);
        if e > 0 {
            assert(needed(m, order, t, roots, c, false));
            lemma_closed_children(m, order, t, roots, c, false);
            lemma_converted_sem(list, m, order, t, roots, n.1, a);
            lemma_converted_sem(list, m, order, t, roots, n.2, a);
        } else {
            assert(needed(m, order, t, roots, c, true));
            lemma_closed_children(m, order, t, roots, c, true);
            lemma_bcdd_sem_step(m, order, t, roots, c, a);
            lemma_negated_sem(m, order, t, roots, n.1, a);
            lemma_negated_sem(m, order, t, roots, n.2, a);
            assert(edge_level(m, order, (-n.1) as isize) == edge_level(m, order, n.1));
            assert(edge_level(m, order, (-n.2) as isize) == edge_level(m, order, n.2));
            lemma_converted_sem(list, m, order, t, roots, (-n.1) as isize, a);
            lemma_converted_sem(list, m, order, t, roots, (-n.2) as isize, a);
        }
    }
}

// ----------------------------------------------------------------------------------------
// Without complemented edges

/// The level of a node of a diagram without complemented edges: the terminal level for the
/// terminals `t1` (the 1) and `t0` (the 0).
pub open spec fn add_level(m: Map<isize, (VarID, isize, isize)>, order: Seq<usize>, t1: isize, t0: isize, x: isize) -> int {
    if x == t1 || x == t0 {
        order[0] as int
    } else {
        order[m[x].0.0 as int] as int
    }
}

/// A diagram without complemented edges that describes an ordered diagram: valid levels, two
/// distinct terminals in the list, every other node on a variable's level with its children in
/// the list on lower levels, every root in the list.
pub open spec fn add_wf(m: Map<isize, (VarID, isize, isize)>, order: Seq<usize>, t1: isize, t0: isize, roots: Seq<isize>) -> bool {
    &&& crate::sifting::valid_levels(order)
    &&& t1 != t0
    &&& m.contains_key(t1)
    &&& m.contains_key(t0)
    &&& forall|n: isize| #[trigger] m.contains_key(n) ==> m[n].0.0 < order.len()
    &&& forall|n: isize| #[trigger] m.contains_key(n) && n != t1 && n != t0 ==> {
        let e = m[n];
        &&& 1 <= e.0.0
        &&& m.contains_key(e.1)
        &&& m.contains_key(e.2)
        &&& add_level(m, order, t1, t0, e.1) > order[e.0.0 as int]
        &&& add_level(m, order, t1, t0, e.2) > order[e.0.0 as int]
    }
    &&& forall|i: int| 0 <= i < roots.len() ==> m.contains_key(#[trigger] roots[i])
}

/// The value under `a` of the function of node `x` of a diagram without complemented edges.
#[verifier::opaque]
pub open spec fn add_sem(m: Map<isize, (VarID, isize, isize)>, order: Seq<usize>, t1: isize, t0: isize, roots: Seq<isize>, x: isize, a: crate::semantics::Assignment) -> bool
    decreases order[0] - add_level(m, order, t1, t0, x),
    when add_wf(m, order, t1, t0, roots) && m.contains_key(x)
{
    if x == t1 {
        true
    } else if x == t0 {
        false
    } else {
        let n = m[x];
        if a(n.0.0) {
            add_sem(m, order, t1, t0, roots, n.1, a)
        } else {
            add_sem(m, order, t1, t0, roots, n.2, a)
        }
    }
}

/// The entry of node `n`, with IDs as the manager takes them.
pub open spec fn add_entry(m: Map<isize, (VarID, isize, isize)>, n: isize) -> (NodeID, VarID, NodeID, NodeID) {
    (NodeID(n as usize), m[n].0, NodeID(m[n].1 as usize), NodeID(m[n].2 as usize))
}

/// `x` is the entry of a node of the list.
pub open spec fn is_add_entry(m: Map<isize, (VarID, isize, isize)>, x: (NodeID, VarID, NodeID, NodeID)) -> bool {
    exists|n: isize| #[trigger] m.contains_key(n) && x == add_entry(m, n)
}

/// The nodes as entries, one per ID.
fn add_entries(m: &HashMap<isize, (VarID, isize, isize)>) -> (r: Vec<(NodeID, VarID, NodeID, NodeID)>)
    ensures
        forall|k: int| 0 <= k < r@.len() ==> #[trigger] is_add_entry(m@, r@[k]),
        forall|n: isize| #[trigger] m@.contains_key(n) ==> r@.contains(add_entry(m@, n)),
        ids_distinct(r@),
{
    let keys = node_ids(m);
    let mut list: Vec<(NodeID, VarID, NodeID, NodeID)> = Vec::new();
    let mut i: usize = 0;
    while i < keys.len()
        invariant
            i <= keys@.len(),
            keys@.no_duplicates(),
            keys@.to_set() == m@.dom(),
            list@.len() == i,
            forall|k: int| 0 <= k < i ==> #[trigger] list@[k] == add_entry(m@, keys@[k]),
        decreases keys@.len() - i,
    {
        let n = keys[i];
        proof {
            assert(keys@.to_set().contains(n));
        }
        let (v, h, l) = *m.get(&n).unwrap();
        list.push((NodeID(n as usize), v, NodeID(h as usize), NodeID(l as usize)));
        i = i + 1;
    }
    proof {
        assert forall|k: int| 0 <= k < list@.len() implies #[trigger] is_add_entry(m@, list@[k]) by {
            assert(keys@.to_set().contains(keys@[k]));
            assert(m@.contains_key(keys@[k]) && list@[k] == add_entry(m@, keys@[k]));
        }
        assert forall|n: isize| #[trigger] m@.contains_key(n) implies list@.contains(add_entry(m@, n)) by {
            assert(keys@.to_set().contains(n));
            let k = choose|k: int| 0 <= k < keys@.len() && keys@[k] == n;
            assert(list@[k] == add_entry(m@, n));
        }
        assert forall|k: int, l: int| 0 <= k < l < list@.len() implies (#[trigger] list@[k]).0 != (#[trigger] list@[l]).0 by {
            if list@[k].0 == list@[l].0 {
                lemma_cast_injective(keys@[k], keys@[l]);
            }
        }
    }
    list
}

/// The entry with the ID of node `x` is its entry.
proof fn lemma_add_entry(list: Seq<(NodeID, VarID, NodeID, NodeID)>, m: Map<isize, (VarID, isize, isize)>, x: isize)
    requires
        forall|n: isize| #[trigger] m.contains_key(n) ==> list.contains(add_entry(m, n)),
        ids_distinct(list),
        m.contains_key(x),
    ensures
        crate::store::in_list(list, x as usize),
        list[crate::store::entry_index(list, x as usize)] == add_entry(m, x),
{
    assert(list.contains(add_entry(m, x)));
    let k = choose|k: int| 0 <= k < list.len() && list[k] == add_entry(m, x);
    assert(list[k].0.0 == x as usize);
    let k2 = crate::store::entry_index(list, x as usize);
    if k2 != k {
        if k < k2 {
            assert(list[k].0 != list[k2].0);
        } else {
            assert(list[k2].0 != list[k].0);
        }
    }
}

/// The list of a diagram without complemented edges describes an ordered diagram, and following
/// it gives the function of each node.
proof fn lemma_add_list(list: Seq<(NodeID, VarID, NodeID, NodeID)>, m: Map<isize, (VarID, isize, isize)>, order: Seq<usize>, t1: isize, t0: isize, roots: Seq<isize>, x: isize, a: crate::semantics::Assignment)
    requires
        add_wf(m, order, t1, t0, roots),
        forall|k: int| 0 <= k < list.len() ==> #[trigger] is_add_entry(m, list[k]),
        forall|n: isize| #[trigger] m.contains_key(n) ==> list.contains(add_entry(m, n)),
        ids_distinct(list),
        m.contains_key(x),
    ensures
        crate::store::list_wf(list, order, (NodeID(t1 as usize), NodeID(t0 as usize))),
        crate::store::known(list, (NodeID(t1 as usize), NodeID(t0 as usize)), x as usize),
        crate::store::list_sem(list, order, (NodeID(t1 as usize), NodeID(t0 as usize)), x as usize, a)
            == add_sem(m, order, t1, t0, roots, x, a),
    decreases order[0] - add_level(m, order, t1, t0, x),
{
    let tt = (NodeID(t1 as usize), NodeID(t0 as usize));
    assert(tt.0 != tt.1) by {
        if tt.0 == tt.1 {
            lemma_cast_injective(t1, t0);
        }
    }
    assert forall|k: int| 0 <= k < list.len() implies (#[trigger] list[k]).1.0 < order.len() by {
        assert(is_add_entry(m, list[k]));
        let n = choose|n: isize| #[trigger] m.contains_key(n) && list[k] == add_entry(m, n);
    }
    assert forall|k: int| 0 <= k < list.len() && !crate::store::is_terminal(tt, (#[trigger] list[k]).0.0) implies {
        let e = list[k];
        &&& 1 <= e.1.0
        &&& crate::store::known(list, tt, e.2.0)
        &&& crate::store::known(list, tt, e.3.0)
        &&& crate::store::list_level(list, order, tt, e.2.0) > order[e.1.0 as int]
        &&& crate::store::list_level(list, order, tt, e.3.0) > order[e.1.0 as int]
    } by {
        assert(is_add_entry(m, list[k]));
        let n = choose|n: isize| #[trigger] m.contains_key(n) && list[k] == add_entry(m, n);
        assert(n != t1 && n != t0);
        let e = m[n];
        lemma_add_child(list, m, order, t1, t0, roots, e.1);
        lemma_add_child(list, m, order, t1, t0, roots, e.2);
    }
    assert(crate::store::list_wf(list, order, tt));
    crate::store::lemma_list_sem_terminals(list, order, tt, a);
    lemma_add_child(list, m, order, t1, t0, roots, x);
    reveal(add_sem);
    if x != t1 && x != t0 {
        lemma_add_entry(list, m, x);
        assert(!crate::store::is_terminal(tt, x as usize)) by {
            if x as usize == t1 as usize {
                lemma_cast_injective(x, t1);
            }
            if x as usize == t0 as usize {
                lemma_cast_injective(x, t0);
            }
        }
        crate::store::lemma_list_sem_inner(list, order, tt, x as usize, a);
        let e = m[x];
        lemma_add_list(list, m, order, t1, t0, roots, e.1, a);
        lemma_add_list(list, m, order, t1, t0, roots, e.2, a);
    } else if x == t0 {
        assert(x as usize != t1 as usize) by {
            if x as usize == t1 as usize {
                lemma_cast_injective(x, t1);
            }
        }
    }
}

/// A node of the list is known in the converted list, on its level.
proof fn lemma_add_child(list: Seq<(NodeID, VarID, NodeID, NodeID)>, m: Map<isize, (VarID, isize, isize)>, order: Seq<usize>, t1: isize, t0: isize, roots: Seq<isize>, x: isize)
    requires
        add_wf(m, order, t1, t0, roots),
        forall|n: isize| #[trigger] m.contains_key(n) ==> list.contains(add_entry(m, n)),
        ids_distinct(list),
        m.contains_key(x),
    ensures
        crate::store::known(list, (NodeID(t1 as usize), NodeID(t0 as usize)), x as usize),
        crate::store::list_level(list, order, (NodeID(t1 as usize), NodeID(t0 as usize)), x as usize) == add_level(m, order, t1, t0, x),
{
    let tt = (NodeID(t1 as usize), NodeID(t0 as usize));
    lemma_add_entry(list, m, x);
    if x != t1 && x != t0 {
        assert(!crate::store::is_terminal(tt, x as usize)) by {
            if x as usize == t1 as usize {
                lemma_cast_injective(x, t1);
            }
            if x as usize == t0 as usize {
                lemma_cast_injective(x, t0);
            }
        }
    }
}

// ----------------------------------------------------------------------------------------
// Loading

/// The diagram can be loaded: without `.add`, its copies close up; with `.add`, it names both
/// terminals and describes an ordered diagram.
pub open spec fn bcdd_valid(roots: Seq<isize>, order: Seq<usize>, m: Map<isize, (VarID, isize, isize)>, ts: (isize, Option<isize>), add: bool) -> bool {
    if add {
        ts.1 is Some && add_wf(m, order, ts.0, ts.1->0, roots)
    } else {
        bcdd_wf(m, order, ts.0, roots) && copies_closed(m, order, ts.0, roots)
    }
}

/// The value under `a` of the function a root (or any edge) of the diagram stands for.
pub open spec fn bcdd_value(roots: Seq<isize>, order: Seq<usize>, m: Map<isize, (VarID, isize, isize)>, ts: (isize, Option<isize>), add: bool, e: isize, a: crate::semantics::Assignment) -> bool {
    if add {
        add_sem(m, order, ts.0, ts.1->0, roots, e, a)
    } else {
        bcdd_sem(m, order, ts.0, roots, e, a)
    }
}

/// A root of a diagram with complemented edges is needed in its polarity.
proof fn lemma_root_needed(m: Map<isize, (VarID, isize, isize)>, order: Seq<usize>, t: isize, roots: Seq<isize>, i: int)
    requires
        bcdd_wf(m, order, t, roots),
        0 <= i < roots.len(),
    ensures
        edge_ok(m, roots[i]),
        child_copy(m, order, t, roots, roots[i]),
{
    reveal(needed);
    let r = roots[i];
    assert(edge_ok(m, r));
    if abs_id(r) != t {
        assert(root_needs(roots, abs_id(r), r < 0)) by {
            if r < 0 {
                assert(roots[i] == -abs_id(r));
            } else {
                assert(roots[i] == abs_id(r));
            }
        }
    }
}

/// Loads a diagram read from a DDDMP file into a new manager with its variable ordering;
/// returns the manager and the nodes standing for the roots.
pub fn convert_bcdd_to_bdd(bcdd: &Bcdd) -> (r: (DDManager, Vec<NodeID>))
    requires
        bcdd_valid(bcdd.roots@, bcdd.varorder@, bcdd.nodes@, bcdd.terminal_ids, bcdd.add),
    ensures
        r.0.wf(),
        r.0.var2level@ == bcdd.varorder@,
        r.1@.len() == bcdd.roots@.len(),
        forall|i: int| 0 <= i < bcdd.roots@.len() ==> r.0.live(#[trigger] r.1@[i].0 as int),
        forall|i: int, a: crate::semantics::Assignment| 0 <= i < bcdd.roots@.len() ==> #[trigger] r.0.sem(r.1@[i].0 as int, a)
            == bcdd_value(bcdd.roots@, bcdd.varorder@, bcdd.nodes@, bcdd.terminal_ids, bcdd.add, bcdd.roots@[i], a),
{
    let ghost m = bcdd.nodes@;
    let ghost order = bcdd.varorder@;
    let ghost roots = bcdd.roots@;
    let t = bcdd.terminal_ids.0;
    let (bdd_nodes, terminals) = if !bcdd.add {
        let list = convert_bcdd_to_bdd_nodes(bcdd);
        proof {
            reveal(converted);
            assert(converted(list@, m, order, t, roots));
            lemma_converted_wf(list@, m, order, t, roots);
        }
        (list, (NodeID(t as usize), NodeID((-t) as usize)))
    } else {
        let list = add_entries(&bcdd.nodes);
        let t0 = bcdd.terminal_ids.1.unwrap();
        proof {
            lemma_add_list(list@, m, order, t, t0, roots, t, |v: usize| true);
        }
        (list, (NodeID(t as usize), NodeID(t0 as usize)))
    };
    // Convert root ids
    let mut new_roots: Vec<NodeID> = Vec::new();
    let mut i: usize = 0;
    while i < bcdd.roots.len()
        invariant
            i <= roots.len(),
            roots == bcdd.roots@,
            new_roots@.len() == i,
            forall|j: int| 0 <= j < i ==> #[trigger] new_roots@[j] == NodeID(roots[j] as usize),
        decreases roots.len() - i,
    {
        new_roots.push(NodeID(bcdd.roots[i] as usize));
        i = i + 1;
    }
    proof {
        assert forall|j: int| 0 <= j < new_roots@.len() implies crate::store::known(bdd_nodes@, terminals, #[trigger] new_roots@[j].0) by {
            if !bcdd.add {
                lemma_root_needed(m, order, t, roots, j);
                lemma_converted_sem(bdd_nodes@, m, order, t, roots, roots[j], |v: usize| true);
            } else {
                lemma_add_list(bdd_nodes@, m, order, t, bcdd.terminal_ids.1->0, roots, roots[j], |v: usize| true);
            }
        }
    }
    let (man, loaded) = DDManager::new().load_bdd_from_nodelist(&bdd_nodes, bcdd.varorder.clone(), &new_roots, terminals);
    proof {
        assert forall|j: int, a: crate::semantics::Assignment| 0 <= j < roots.len() implies #[trigger] man.sem(loaded@[j].0 as int, a)
            == bcdd_value(roots, order, m, bcdd.terminal_ids, bcdd.add, roots[j], a) by {
            assert(man.stands_for(bdd_nodes@, terminals, new_roots@[j].0, loaded@[j].0));
            if !bcdd.add {
                lemma_root_needed(m, order, t, roots, j);
                lemma_converted_sem(bdd_nodes@, m, order, t, roots, roots[j], a);
            } else {
                lemma_add_list(bdd_nodes@, m, order, t, bcdd.terminal_ids.1->0, roots, roots[j], a);
            }
        }
        assert forall|j: int| 0 <= j < roots.len() implies man.live(#[trigger] loaded@[j].0 as int) by {
            assert(man.stands_for(bdd_nodes@, terminals, new_roots@[j].0, loaded@[j].0));
        }
    }
    (man, loaded)
}

/// A file's diagram, as read, can be loaded.
pub open spec fn dddmp_loadable(ws: Seq<Seq<Seq<char>>>) -> bool {
    match dddmp_outcome(ws) {
        Ok(x) => bcdd_valid(x.0, x.1, x.2, x.3, x.4),
        Err(f) => true,
    }
}

impl DDManager {
    /// Reads a (multi-rooted) diagram from the lines of a DDDMP file into a new manager with the
    /// file's variable ordering; returns the manager and the nodes standing for the roots.
    pub fn load_from_dddmp_file(lines: &Vec<String>) -> (r: Result<(DDManager, Vec<NodeID>), String>)
        requires
            !dddmp_overflows(text_words(lines@)),
            dddmp_loadable(text_words(lines@)),
        ensures
            match dddmp_outcome(text_words(lines@)) {
                Ok(x) => r is Ok && {
                    let (man, roots) = r->Ok_0;
                    &&& man.wf()
                    &&& man.var2level@ == x.1
                    &&& roots@.len() == x.0.len()
                    &&& forall|i: int| 0 <= i < x.0.len() ==> man.live(#[trigger] roots@[i].0 as int)
                    &&& forall|i: int, a: crate::semantics::Assignment| 0 <= i < x.0.len() ==> #[trigger] man.sem(roots@[i].0 as int, a)
                        == bcdd_value(x.0, x.1, x.2, x.3, x.4, x.0[i], a)
                },
                Err(f) => fails_as(r, f),
            },
    {
        let bcdd = match parse_bcdd_from_dddmp_file(lines) {
            Ok(b) => b,
            Err(e) => return Err(e),
        };
        Ok(convert_bcdd_to_bdd(&bcdd))
    }
}

} // verus!
