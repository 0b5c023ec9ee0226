//! Reading a diagram stored as a `.bdd` object: the variable ordering, the roots, and a node
//! list in text, one node per line as `id variable high low`, together with statistics about
//! single nodes.
use vstd::prelude::*;
use std::collections::HashMap;
use crate::bdd_node::{NodeID, VarID};
use crate::bdd_manager::DDManager;
use crate::graph::NodeStatistics;
use crate::parser::{split_lines, words, holds_seqs, deep_words, text_chars, split_words, parse_error_text};
use crate::dddmp::{valid_usize_literal, usize_value, all_usize, parse_usize, read_usizes};
use crate::store::{in_list, entry_index, known, list_wf, list_sem, list_level, is_terminal};
use crate::semantics::Assignment;

verus! {

broadcast use vstd::std_specs::hash::group_hash_axioms;

/// What can go wrong reading a stored diagram.
#[derive(Debug, PartialEq, Eq, Structural, Clone, Copy)]
pub enum BddFileFailure {
    /// A line of the node list does not hold four words.
    UnexpectedLine,
    /// A word is no number.
    Number,
    /// A node points twice to the same child, which is no terminal.
    InvalidTerminal,
    /// A root is not in the node list.
    MissingRoot,
    /// The node list lacks one of the two terminals.
    MissingTerminals,
}

/// The message for a failure (a failed number gives the message of its parse error).
pub open spec fn bdd_failure_text(f: BddFileFailure) -> Seq<char> {
    match f {
        BddFileFailure::UnexpectedLine => "Node list contains unexpected line!"@,
        BddFileFailure::Number => Seq::empty(),
        BddFileFailure::InvalidTerminal => "Invalid terminal node!"@,
        BddFileFailure::MissingRoot => "Root node not existant in BDD!"@,
        BddFileFailure::MissingTerminals => "Terminal nodes missing!"@,
    }
}

/// `r` fails as `f` says: with its message, or any message for a failed number.
pub open spec fn bdd_fails_as<T>(r: Result<T, String>, f: BddFileFailure) -> bool {
    &&& r is Err
    &&& !(f is Number) ==> r->Err_0@ == bdd_failure_text(f)
}

/// The list with entry `e`: replacing the entry of the same ID, or added at the end.
pub open spec fn with_entry(list: Seq<(NodeID, VarID, NodeID, NodeID)>, e: (NodeID, VarID, NodeID, NodeID)) -> Seq<(NodeID, VarID, NodeID, NodeID)> {
    if in_list(list, e.0.0) {
        list.update(entry_index(list, e.0.0), e)
    } else {
        list.push(e)
    }
}

/// Reading one line of the node list into the entries so far and the IDs of the 1 and the 0
/// terminal seen last: a blank line changes nothing; a node whose children are both 1 (or
/// both 0) is the 1 (or the 0) terminal.
pub open spec fn node_text_step(
    st: (Seq<(NodeID, VarID, NodeID, NodeID)>, (Option<usize>, Option<usize>)),
    l: Seq<Seq<char>>,
) -> Result<(Seq<(NodeID, VarID, NodeID, NodeID)>, (Option<usize>, Option<usize>)), BddFileFailure> {
    if l.len() == 0 {
        Ok(st)
    } else if l.len() != 4 {
        Err(BddFileFailure::UnexpectedLine)
    } else if !all_usize(l) {
        Err(BddFileFailure::Number)
    } else {
        let id = usize_value(l[0]);
        let high = usize_value(l[2]);
        let low = usize_value(l[3]);
        let e = (NodeID(id), VarID(usize_value(l[1])), NodeID(high), NodeID(low));
        if high == low && high == 1 {
            Ok((with_entry(st.0, e), (Some(id), st.1.1)))
        } else if high == low && high == 0 {
            Ok((with_entry(st.0, e), (st.1.0, Some(id))))
        } else if high == low {
            Err(BddFileFailure::InvalidTerminal)
        } else {
            Ok((with_entry(st.0, e), st.1))
        }
    }
}

/// Reading the first `k` lines of the node list.
pub open spec fn node_text_fold(ls: Seq<Seq<Seq<char>>>, k: int) -> Result<(Seq<(NodeID, VarID, NodeID, NodeID)>, (Option<usize>, Option<usize>)), BddFileFailure>
    decreases k,
{
    if k <= 0 {
        Ok((Seq::empty(), (None, None)))
    } else {
        match node_text_fold(ls, k - 1) {
            Err(f) => Err(f),
            Ok(st) => node_text_step(st, ls[k - 1]),
        }
    }
}

/// A failure stays the failure of every longer part of the node list.
proof fn lemma_fold_err(ls: Seq<Seq<Seq<char>>>, k: int, m: int)
    requires
        k <= m,
        node_text_fold(ls, k) is Err,
    ensures
        node_text_fold(ls, m) == node_text_fold(ls, k),
    decreases m - k,
{
    if m > k {
        lemma_fold_err(ls, k, m - 1);
    }
}

/// The words of the lines of a text.
pub open spec fn text_line_words(text: Seq<char>) -> Seq<Seq<Seq<char>>> {
    split_lines(text).map_values(|l: Seq<char>| words(l))
}

/// What a stored diagram with node list `text` and these roots comes to: the node list (each
/// ID once, with its last line) and the 1 and 0 terminals, or the first failure.
pub open spec fn stored_outcome(roots: Seq<NodeID>, text: Seq<char>) -> Result<(Seq<(NodeID, VarID, NodeID, NodeID)>, (NodeID, NodeID)), BddFileFailure> {
    let ls = text_line_words(text);
    match node_text_fold(ls, ls.len() as int) {
        Err(f) => Err(f),
        Ok((list, t)) => if exists|i: int| 0 <= i < roots.len() && !in_list(list, #[trigger] roots[i].0) {
            Err(BddFileFailure::MissingRoot)
        } else {
            match t {
                (Some(one), Some(zero)) => Ok((list, (NodeID(one), NodeID(zero)))),
                _ => Err(BddFileFailure::MissingTerminals),
            }
        },
    }
}

/// The list holds each ID once, and `index` tells where.
pub open spec fn indexed(list: Seq<(NodeID, VarID, NodeID, NodeID)>, index: Map<usize, usize>) -> bool {
    &&& forall|k: int, l: int| 0 <= k < l < list.len() ==> (#[trigger] list[k]).0 != (#[trigger] list[l]).0
    &&& forall|id: usize| #[trigger] index.contains_key(id) <==> in_list(list, id)
    &&& forall|id: usize| #[trigger] index.contains_key(id) ==> index[id] < list.len() && list[index[id] as int].0.0 == id
}

/// The lines of a text: the pieces between its newline characters.
pub(crate) fn text_lines(text: &Vec<char>) -> (r: Vec<Vec<char>>)
    ensures
        holds_seqs(r@, split_lines(text@)),
{
    let mut ls: Vec<Vec<char>> = Vec::new();
    let mut cur: Vec<char> = Vec::new();
    let mut k: usize = 0;
    while k < text.len()
        invariant
            k <= text@.len(),
            split_lines(text@.subrange(0, k as int)).len() == ls@.len() + 1,
            holds_seqs(ls@, split_lines(text@.subrange(0, k as int)).drop_last()),
            cur@ == split_lines(text@.subrange(0, k as int)).last(),
        decreases text@.len() - k,
    {
        let ghost pre = text@.subrange(0, k as int);
        let ghost next = text@.subrange(0, k + 1);
        proof {
            assert(next.drop_last() =~= pre);
            crate::parser::lemma_split_lines_len(pre);
        }
        let c = text[k];
        if c == '\n' {
            let ghost old_ls = ls@;
            ls.push(cur);
            cur = Vec::new();
            proof {
                assert(split_lines(next) == split_lines(pre).push(Seq::empty()));
                assert(holds_seqs(ls@, split_lines(next).drop_last())) by {
                    assert(split_lines(next).drop_last() =~= split_lines(pre));
                    assert forall|i: int| 0 <= i < ls@.len() implies (#[trigger] ls@[i])@ == split_lines(next).drop_last()[i] by {
                        if i < old_ls.len() {
                            assert(ls@[i] == old_ls[i]);
                        }
                    }
                }
            }
        } else {
            cur.push(c);
            proof {
                let sp = split_lines(pre);
                assert(split_lines(next) == sp.update(sp.len() - 1, sp.last().push(c)));
                assert(split_lines(next).drop_last() =~= sp.drop_last());
            }
        }
        k = k + 1;
    }
    let ghost old_ls = ls@;
    ls.push(cur);
    proof {
        assert(text@.subrange(0, text@.len() as int) =~= text@);
        crate::parser::lemma_split_lines_len(text@);
        assert forall|i: int| 0 <= i < ls@.len() implies (#[trigger] ls@[i])@ == split_lines(text@)[i] by {
            if i < old_ls.len() {
                assert(ls@[i] == old_ls[i]);
            }
        }
    }
    ls
}

/// Reads the node list from the words of its lines, keeping for each ID its last line, with a
/// table of where each ID stands.
fn read_node_text(ls: &Vec<Vec<Vec<char>>>)
    -> (r: Result<(Vec<(NodeID, VarID, NodeID, NodeID)>, HashMap<usize, usize>, (Option<usize>, Option<usize>)), String>)
    ensures
        match node_text_fold(crate::dddmp::lines_words(ls@), ls@.len() as int) {
            Err(f) => bdd_fails_as(r, f),
            Ok(st) => r is Ok && r->Ok_0.0@ == st.0 && r->Ok_0.2 == st.1 && indexed(st.0, r->Ok_0.1@),
        },
{
    let ghost lw = crate::dddmp::lines_words(ls@);
    let mut list: Vec<(NodeID, VarID, NodeID, NodeID)> = Vec::new();
    let mut index: HashMap<usize, usize> = HashMap::new();
    let mut one: Option<usize> = None;
    let mut zero: Option<usize> = None;
    let mut k: usize = 0;
    proof {
        assert(index@ =~= Map::<usize, usize>::empty());
    }
    while k < ls.len()
        invariant
            k <= ls@.len(),
            lw == crate::dddmp::lines_words(ls@),
            node_text_fold(lw, k as int) == Ok::<_, BddFileFailure>((list@, (one, zero))),
            indexed(list@, index@),
        decreases ls@.len() - k,
    {
        let l = &ls[k];
        proof {
            assert(lw[k as int] == deep_words(l@));
            assert(node_text_fold(lw, k + 1) == node_text_step((list@, (one, zero)), lw[k as int]));
        }
        if l.len() != 0 {
            if l.len() != 4 {
                proof {
                    lemma_fold_err(lw, k + 1, ls@.len() as int);
                }
                return Err(String::from_str("Node list contains unexpected line!"));
            }
            proof {
                assert(l@.map_values(|w: Vec<char>| w@) =~= deep_words(l@));
            }
            let nums = match read_usizes(l) {
                Ok(v) => v,
                Err(e) => {
                    proof {
                        assert(node_text_fold(lw, k + 1) is Err);
                        lemma_fold_err(lw, k + 1, ls@.len() as int);
                    }
                    return Err(e);
                },
            };
            let id = nums[0];
            let var = nums[1];
            let high = nums[2];
            let low = nums[3];
            if high == low {
                if high == 1 {
                    one = Some(id);
                } else if high == 0 {
                    zero = Some(id);
                } else {
                    proof {
                        lemma_fold_err(lw, k + 1, ls@.len() as int);
                    }
                    return Err(String::from_str("Invalid terminal node!"));
                }
            }
            let e = (NodeID(id), VarID(var), NodeID(high), NodeID(low));
            let ghost before = list@;
            match index.get(&id) {
                Some(j) => {
                    let j = *j;
                    proof {
                        assert(in_list(before, id));
                        let c = entry_index(before, id);
                        assert(before[c].0.0 == id);
                        assert(c == j as int);
                    }
                    list.set(j, e);
                    proof {
                        assert forall|a: int, b: int| 0 <= a < b < list@.len() implies (#[trigger] list@[a]).0 != (#[trigger] list@[b]).0 by {
                            assert(before[a].0 != before[b].0);
                        }
                        assert forall|x: usize| #[trigger] index@.contains_key(x) <==> in_list(list@, x) by {
                            if in_list(list@, x) {
                                let c = choose|c: int| 0 <= c < list@.len() && list@[c].0.0 == x;
                                assert(before[c].0.0 == x);
                            }
                            if in_list(before, x) {
                                let c = choose|c: int| 0 <= c < before.len() && before[c].0.0 == x;
                                assert(list@[c].0.0 == x);
                            }
                        }
                    }
                },
                None => {
                    let n = list.len();
                    let ghost old_index = index@;
                    index.insert(id, n);
                    list.push(e);
                    proof {
                        assert(!in_list(before, id));
                        assert forall|a: int, b: int| 0 <= a < b < list@.len() implies (#[trigger] list@[a]).0 != (#[trigger] list@[b]).0 by {
                            if b == n as int {
                                assert(!(0 <= a < before.len() && before[a].0.0 == id));
                            } else {
                                assert(before[a].0 != before[b].0);
                            }
                        }
                        assert forall|x: usize| #[trigger] index@.contains_key(x) <==> in_list(list@, x) by {
                            if in_list(list@, x) {
                                let c = choose|c: int| 0 <= c < list@.len() && list@[c].0.0 == x;
                                if c < n {
                                    assert(before[c].0.0 == x);
                                }
                            }
                            if in_list(before, x) {
                                let c = choose|c: int| 0 <= c < before.len() && before[c].0.0 == x;
                                assert(list@[c].0.0 == x);
                            }
                            if x == id {
                                assert(list@[n as int].0.0 == x);
                            }
                        }
                        assert forall|x: usize| #[trigger] index@.contains_key(x) implies index@[x] < list@.len() && list@[index@[x] as int].0.0 == x by {
                            if x != id {
                                assert(old_index.contains_key(x));
                                assert(list@[old_index[x] as int] == before[old_index[x] as int]);
                            }
                        }
                    }
                },
            }
        }
        k = k + 1;
    }
    proof {
        assert(k == ls@.len());
    }
    Ok((list, index, (one, zero)))
}

/// A stored diagram: the level of each variable, the roots, and the node list in text.
pub struct StoredBdd {
    pub order: Vec<usize>,
    pub roots: Vec<NodeID>,
    /// One node per line: `id variable high low`.
    pub nodes: String,
}

/// A stored diagram with statistics about single nodes, each under the text of its ID.
pub struct BddFile {
    pub statistics: Option<Vec<(String, NodeStatistics)>>,
    pub bdd: StoredBdd,
}

/// The statistics at position `i` name their node by a text that is no number.
pub open spec fn key_invalid(v: Seq<(String, NodeStatistics)>, i: int) -> bool {
    !valid_usize_literal(v[i].0@)
}

/// A key that is no number makes the statistics invalid.
proof fn lemma_invalid_witness(v: Vec<(String, NodeStatistics)>, k: int)
    requires
        0 <= k < v@.len(),
        key_invalid(v@, k),
    ensures
        stats_invalid(Some(v)),
{
    let st = Some(v);
    match st {
        Some(w) => {
            assert(w == v);
            assert(key_invalid(w@, k));
        },
        None => {},
    }
}

/// Some statistics name a node by a text that is no number.
pub open spec fn stats_invalid(st: Option<Vec<(String, NodeStatistics)>>) -> bool {
    match st {
        Some(v) => exists|i: int| 0 <= i < v@.len() && #[trigger] key_invalid(v@, i),
        None => false,
    }
}

/// The statistics name only nodes of the list (or the terminals).
pub open spec fn stats_known(st: Option<Vec<(String, NodeStatistics)>>, list: Seq<(NodeID, VarID, NodeID, NodeID)>, t: (NodeID, NodeID)) -> bool {
    st matches Some(v) ==> forall|i: int| 0 <= i < v@.len() && valid_usize_literal(#[trigger] v@[i].0@)
        ==> known(list, t, usize_value(v@[i].0@))
}

/// `out` holds the statistics `st` in the same order, each under the node of `man` that stands
/// for the node it names.
pub open spec fn stats_moved(man: DDManager, list: Seq<(NodeID, VarID, NodeID, NodeID)>, t: (NodeID, NodeID),
    st: Option<Vec<(String, NodeStatistics)>>, out: Option<Vec<(NodeID, NodeStatistics)>>) -> bool {
    match (st, out) {
        (None, None) => true,
        (Some(v), Some(w)) => {
            &&& w@.len() == v@.len()
            &&& forall|i: int| 0 <= i < v@.len() ==> (#[trigger] w@[i]).1 == v@[i].1
                && man.stands_for(list, t, usize_value(v@[i].0@), w@[i].0.0)
        },
        _ => false,
    }
}

/// The words of each line of a text.
fn words_of_lines(text: &str) -> (r: Vec<Vec<Vec<char>>>)
    ensures
        crate::dddmp::lines_words(r@) == text_line_words(text@),
{
    let cs = text_chars(text);
    let lines = text_lines(&cs);
    let mut out: Vec<Vec<Vec<char>>> = Vec::new();
    let mut i: usize = 0;
    while i < lines.len()
        invariant
            i <= lines@.len(),
            holds_seqs(lines@, split_lines(cs@)),
            out@.len() == i,
            forall|j: int| 0 <= j < i ==> #[trigger] deep_words(out@[j]@) == words(lines@[j]@),
        decreases lines@.len() - i,
    {
        let ws = split_words(&lines[i]);
        let ghost before = out@;
        out.push(ws);
        proof {
            assert forall|j: int| 0 <= j < i + 1 implies #[trigger] deep_words(out@[j]@) == words(lines@[j]@) by {
                if j < i {
                    assert(out@[j] == before[j]);
                } else {
                    assert(deep_words(ws@) =~= words(lines@[j]@));
                }
            }
        }
        i = i + 1;
    }
    proof {
        assert(crate::dddmp::lines_words(out@) =~= text_line_words(cs@)) by {
            assert forall|j: int| 0 <= j < out@.len() implies #[trigger] crate::dddmp::lines_words(out@)[j] == text_line_words(cs@)[j] by {
                assert(lines@[j]@ == split_lines(cs@)[j]);
            }
        }
    }
    out
}

impl DDManager {
    /// Reads a (multi-rooted) diagram and the statistics about its nodes from a stored object
    /// into a new manager with the stored variable ordering: returns the manager, the nodes
    /// standing for the roots, and the statistics, each moved to the node that stands for the
    /// one it named.
    pub fn load_from_bdd_file_object_with_statistics(bdd_file: BddFile)
        -> (r: Result<(DDManager, Vec<NodeID>, Option<Vec<(NodeID, NodeStatistics)>>), String>)
        requires
            stored_outcome(bdd_file.bdd.roots@, bdd_file.bdd.nodes@) matches Ok((list, t)) ==> {
                &&& list_wf(list, bdd_file.bdd.order@, t)
                &&& stats_known(bdd_file.statistics, list, t)
            },
        ensures
            match stored_outcome(bdd_file.bdd.roots@, bdd_file.bdd.nodes@) {
                Err(f) => bdd_fails_as(r, f),
                Ok((list, t)) => if stats_invalid(bdd_file.statistics) {
                    r is Err
                } else {
                    r is Ok && {
                        let (man, roots, stats) = r->Ok_0;
                        &&& man.wf()
                        &&& man.var2level@ == bdd_file.bdd.order@
                        &&& roots@.len() == bdd_file.bdd.roots@.len()
                        &&& forall|i: int| 0 <= i < roots@.len()
                            ==> man.stands_for(list, t, bdd_file.bdd.roots@[i].0, #[trigger] roots@[i].0)
                        &&& stats_moved(man, list, t, bdd_file.statistics, stats)
                    }
                },
            },
    {
        let statistics = bdd_file.statistics;
        let order = bdd_file.bdd.order;
        let roots = bdd_file.bdd.roots;
        let nodes = bdd_file.bdd.nodes;
        let ls = words_of_lines(nodes.as_str());
        let (list, index, terminals) = match read_node_text(&ls) {
            Ok(x) => x,
            Err(e) => return Err(e),
        };
        let ghost lw = crate::dddmp::lines_words(ls@);
        proof {
            assert(lw.len() == ls@.len());
        }

        // Check that the roots are nodes of the list
        let mut i: usize = 0;
        while i < roots.len()
            invariant
                i <= roots@.len(),
                indexed(list@, index@),
                lw == text_line_words(nodes@),
                roots@ == bdd_file.bdd.roots@,
                nodes@ == bdd_file.bdd.nodes@,
                node_text_fold(lw, lw.len() as int) == Ok::<_, BddFileFailure>((list@, terminals)),
                forall|j: int| 0 <= j < i ==> in_list(list@, #[trigger] roots@[j].0),
            decreases roots@.len() - i,
        {
            if !index.contains_key(&roots[i].0) {
                proof {
                    assert(!in_list(list@, roots@[i as int].0));
                    assert(stored_outcome(roots@, nodes@) == Err::<(Seq<(NodeID, VarID, NodeID, NodeID)>, (NodeID, NodeID)), BddFileFailure>(BddFileFailure::MissingRoot));
                }
                return Err(String::from_str("Root node not existant in BDD!"));
            }
            i = i + 1;
        }

        // Check that the terminals exist
        let terminals = match terminals {
            (Some(one), Some(zero)) => (NodeID(one), NodeID(zero)),
            _ => return Err(String::from_str("Terminal nodes missing!")),
        };

        let ghost t = terminals;
        proof {
            assert(!(exists|j: int| 0 <= j < roots@.len() && !in_list(list@, #[trigger] roots@[j].0)));
            assert(stored_outcome(roots@, nodes@) == Ok::<_, BddFileFailure>((list@, t)));
        }
        let (man, new_roots, ids) = DDManager::new().load_bdd_from_nodelist_with_translation(&list, order, &roots, terminals);

        // Move the statistics to the new node IDs
        let stats = match statistics {
            None => None,
            Some(v) => {
                proof {
                    assert(stats_known(Some(v), list@, t));
                    assert forall|j: int| 0 <= j < v@.len() && valid_usize_literal(#[trigger] v@[j].0@)
                        implies known(list@, t, usize_value(v@[j].0@)) by {
                        assert(stats_known(Some(v), list@, t));
                    }
                }
                let mut out: Vec<(NodeID, NodeStatistics)> = Vec::new();
                let mut k: usize = 0;
                while k < v.len()
                    invariant
                        k <= v@.len(),
                        out@.len() == k,
                        forall|j: int| 0 <= j < v@.len() && valid_usize_literal(#[trigger] v@[j].0@)
                            ==> known(list@, t, usize_value(v@[j].0@)),
                        stored_outcome(roots@, nodes@) == Ok::<_, BddFileFailure>((list@, t)),
                        roots@ == bdd_file.bdd.roots@,
                        nodes@ == bdd_file.bdd.nodes@,
                        bdd_file.statistics == Some(v),
                        forall|id: usize| #[trigger] known(list@, t, id) ==> ids@.contains_key(id)
                            && man.stands_for(list@, t, id, ids@[id]),
                        forall|j: int| 0 <= j < k ==> valid_usize_literal(#[trigger] v@[j].0@),
                        forall|j: int| 0 <= j < k ==> (#[trigger] out@[j]).1 == v@[j].1
                            && man.stands_for(list@, t, usize_value(v@[j].0@), out@[j].0.0),
                    decreases v@.len() - k,
                {
                    let cs = text_chars(v[k].0.as_str());
                    match parse_usize(&cs) {
                        Ok(n) => {
                            proof {
                                assert(valid_usize_literal(v@[k as int].0@));
                                assert(known(list@, t, usize_value(v@[k as int].0@)));
                            }
                            let to = *ids.get(&n).unwrap();
                            out.push((NodeID(to), v[k].1));
                        },
                        Err(e) => {
                            proof {
                                assert(0 <= k < v@.len() && key_invalid(v@, k as int));
                                lemma_invalid_witness(v, k as int);
                            }
                            return Err(parse_error_text(&e));
                        },
                    }
                    k = k + 1;
                }
                Some(out)
            },
        };
        Ok((man, new_roots, stats))
    }
}

// ----------------------------------------------------------------------------------------
// Checking before loading

/// The entry of the list with ID `id` is the one its table names.
proof fn lemma_entry_index(list: Seq<(NodeID, VarID, NodeID, NodeID)>, index: Map<usize, usize>, id: usize)
    requires
        indexed(list, index),
        index.contains_key(id),
    ensures
        entry_index(list, id) == index[id] as int,
{
    let k = index[id] as int;
    assert(0 <= k < list.len() && list[k].0.0 == id);
    let c = entry_index(list, id);
    if c != k {
        if c < k {
            assert(list[c].0 != list[k].0);
        } else {
            assert(list[k].0 != list[c].0);
        }
    }
}

/// Whether a level table is valid: the terminal level first, equal to the number of entries,
/// every level between 1 and it, and no level twice.
fn levels_valid(order: &Vec<usize>) -> (r: bool)
    ensures
        r == crate::sifting::valid_levels(order@),
{
    let n = order.len();
    if n == 0 || order[0] != n {
        return false;
    }
    let mut v: usize = 0;
    while v < n
        invariant
            n == order@.len(),
            order@[0] == n,
            v <= n,
            forall|w: int| 0 <= w < v ==> 1 <= #[trigger] order@[w] <= n,
            forall|w: int, x: int| 0 <= w < v && 0 <= x < n && w != x ==> #[trigger] order@[w] != #[trigger] order@[x],
        decreases n - v,
    {
        if order[v] < 1 || order[v] > n {
            return false;
        }
        let mut x: usize = 0;
        while x < n
            invariant
                n == order@.len(),
                v < n,
                x <= n,
                forall|y: int| 0 <= y < x && y != v ==> order@[v as int] != #[trigger] order@[y],
            decreases n - x,
        {
            if x != v && order[x] == order[v] {
                return false;
            }
            x = x + 1;
        }
        v = v + 1;
    }
    true
}

/// Whether `id` is a terminal or an entry of the list.
fn is_known(index: &HashMap<usize, usize>, t: (NodeID, NodeID), id: usize, Ghost(list): Ghost<Seq<(NodeID, VarID, NodeID, NodeID)>>) -> (r: bool)
    requires
        indexed(list, index@),
    ensures
        r == known(list, t, id),
{
    id == t.0.0 || id == t.1.0 || index.contains_key(&id)
}

/// Whether the node list describes an ordered diagram under the level table `order`, as
/// loading it asks.
fn list_fits(list: &Vec<(NodeID, VarID, NodeID, NodeID)>, index: &HashMap<usize, usize>, order: &Vec<usize>, t: (NodeID, NodeID)) -> (r: bool)
    requires
        indexed(list@, index@),
    ensures
        r == list_wf(list@, order@, t),
{
    if !levels_valid(order) || t.0 == t.1 {
        return false;
    }
    let n = order.len();
    let mut k: usize = 0;
    while k < list.len()
        invariant
            indexed(list@, index@),
            n == order@.len(),
            k <= list@.len(),
            forall|j: int| 0 <= j < k ==> (#[trigger] list@[j]).1.0 < n,
        decreases list@.len() - k,
    {
        if list[k].1.0 >= n {
            return false;
        }
        k = k + 1;
    }
    let mut k: usize = 0;
    while k < list.len()
        invariant
            indexed(list@, index@),
            crate::sifting::valid_levels(order@),
            t.0 != t.1,
            n == order@.len(),
            k <= list@.len(),
            forall|j: int| 0 <= j < list@.len() ==> (#[trigger] list@[j]).1.0 < n,
            forall|j: int| 0 <= j < k && !is_terminal(t, (#[trigger] list@[j]).0.0) ==> {
                let e = list@[j];
                &&& 1 <= e.1.0
                &&& known(list@, t, e.2.0)
                &&& known(list@, t, e.3.0)
                &&& list_level(list@, order@, t, e.2.0) > order@[e.1.0 as int]
                &&& list_level(list@, order@, t, e.3.0) > order@[e.1.0 as int]
            },
        decreases list@.len() - k,
    {
        let (id, var, high, low) = list[k];
        if id.0 != t.0.0 && id.0 != t.1.0 {
            if var.0 < 1 {
                return false;
            }
            let mut c: usize = 0;
            while c < 2
                invariant
                    indexed(list@, index@),
                    n == order@.len(),
                    k < list@.len(),
                    list@[k as int] == (id, var, high, low),
                    !is_terminal(t, id.0),
                    var.0 < n,
                    forall|j: int| 0 <= j < list@.len() ==> (#[trigger] list@[j]).1.0 < n,
                    c <= 2,
                    c > 0 ==> known(list@, t, high.0) && list_level(list@, order@, t, high.0) > order@[var.0 as int],
                    c > 1 ==> known(list@, t, low.0) && list_level(list@, order@, t, low.0) > order@[var.0 as int],
                decreases 2 - c,
            {
                let child = if c == 0 { high.0 } else { low.0 };
                if !is_known(index, t, child, Ghost(list@)) {
                    proof {
                        assert(!is_terminal(t, list@[k as int].0.0));
                        assert(!known(list@, t, list@[k as int].2.0) || !known(list@, t, list@[k as int].3.0));
                    }
                    return false;
                }
                let level = if child == t.0.0 || child == t.1.0 {
                    order[0]
                } else {
                    let e = *index.get(&child).unwrap();
                    proof {
                        lemma_entry_index(list@, index@, child);
                    }
                    order[list[e].1.0]
                };
                if level <= order[var.0] {
                    proof {
                        assert(level == list_level(list@, order@, t, child));
                        assert(!is_terminal(t, list@[k as int].0.0));
                        assert(list_level(list@, order@, t, list@[k as int].2.0) <= order@[list@[k as int].1.0 as int]
                            || list_level(list@, order@, t, list@[k as int].3.0) <= order@[list@[k as int].1.0 as int]);
                    }
                    return false;
                }
                c = c + 1;
            }
        }
        k = k + 1;
    }
    true
}

/// Whether every statistics entry whose key is a number names a known node.
fn stats_fit(st: &Option<Vec<(String, NodeStatistics)>>, index: &HashMap<usize, usize>, t: (NodeID, NodeID), Ghost(list): Ghost<Seq<(NodeID, VarID, NodeID, NodeID)>>) -> (r: bool)
    requires
        indexed(list, index@),
    ensures
        r == stats_known(*st, list, t),
{
    match st {
        None => true,
        Some(v) => {
            let mut k: usize = 0;
            while k < v.len()
                invariant
                    indexed(list, index@),
                    *st == Some(*v),
                    k <= v@.len(),
                    forall|j: int| 0 <= j < k && valid_usize_literal(#[trigger] v@[j].0@)
                        ==> known(list, t, usize_value(v@[j].0@)),
                decreases v@.len() - k,
            {
                let cs = text_chars(v[k].0.as_str());
                match parse_usize(&cs) {
                    Ok(n) => {
                        if !is_known(index, t, n, Ghost(list)) {
                            proof {
                                assert(cs@ == v@[k as int].0@);
                                assert(valid_usize_literal(v@[k as int].0@));
                                assert(usize_value(v@[k as int].0@) == n);
                                assert(!known(list, t, usize_value(v@[k as int].0@)));
                                assert(!stats_known(*st, list, t)) by {
                                    let w = st->Some_0;
                                    assert(w@ == v@);
                                    assert(0 <= k < w@.len() && valid_usize_literal(w@[k as int].0@));
                                }
                            }
                            return false;
                        }
                    },
                    Err(_) => {},
                }
                k = k + 1;
            }
            true
        },
    }
}

/// Whether a stored diagram can be handed to the loader: where its node list is read without
/// failure, the list fits the stored variable ordering and the statistics name known nodes.
pub fn loadable(bdd_file: &BddFile) -> (r: bool)
    ensures
        r == (stored_outcome(bdd_file.bdd.roots@, bdd_file.bdd.nodes@) matches Ok((list, t)) ==> {
            &&& list_wf(list, bdd_file.bdd.order@, t)
            &&& stats_known(bdd_file.statistics, list, t)
        }),
{
    let ls = words_of_lines(bdd_file.bdd.nodes.as_str());
    let ghost lw = crate::dddmp::lines_words(ls@);
    proof {
        assert(lw.len() == ls@.len());
    }
    let (list, index, terminals) = match read_node_text(&ls) {
        Ok(x) => x,
        Err(_) => return true,
    };
    let roots = &bdd_file.bdd.roots;
    let mut i: usize = 0;
    while i < roots.len()
        invariant
            i <= roots@.len(),
            indexed(list@, index@),
            forall|j: int| 0 <= j < i ==> in_list(list@, #[trigger] roots@[j].0),
            roots == &bdd_file.bdd.roots,
            lw == text_line_words(bdd_file.bdd.nodes@),
            node_text_fold(lw, lw.len() as int) == Ok::<_, BddFileFailure>((list@, terminals)),
        decreases roots@.len() - i,
    {
        if !index.contains_key(&roots[i].0) {
            proof {
                assert(!in_list(list@, roots@[i as int].0));
                assert(stored_outcome(bdd_file.bdd.roots@, bdd_file.bdd.nodes@) == Err::<(Seq<(NodeID, VarID, NodeID, NodeID)>, (NodeID, NodeID)), BddFileFailure>(BddFileFailure::MissingRoot));
            }
            return true;
        }
        i = i + 1;
    }
    let t = match terminals {
        (Some(one), Some(zero)) => (NodeID(one), NodeID(zero)),
        _ => return true,
    };
    proof {
        assert(!(exists|j: int| 0 <= j < roots@.len() && !in_list(list@, #[trigger] roots@[j].0)));
        assert(stored_outcome(bdd_file.bdd.roots@, bdd_file.bdd.nodes@) == Ok::<_, BddFileFailure>((list@, t)));
    }
    list_fits(&list, &index, &bdd_file.bdd.order, t) && stats_fit(&bdd_file.statistics, &index, t, Ghost(list@))
}

// ----------------------------------------------------------------------------------------
// Writing

/// The character of a decimal digit.
pub open spec fn digit_char(d: int) -> char {
    if d == 0 { '0' } else if d == 1 { '1' } else if d == 2 { '2' } else if d == 3 { '3' } else if d == 4 { '4' }
    else if d == 5 { '5' } else if d == 6 { '6' } else if d == 7 { '7' } else if d == 8 { '8' } else { '9' }
}

/// The decimal digits of `n`, without leading zeros.
pub open spec fn decimal(n: nat) -> Seq<char>
    decreases n,
{
    if n < 10 {
        seq![digit_char(n as int)]
    } else {
        decimal(n / 10).push(digit_char((n % 10) as int))
    }
}

/// The line of a node in a stored node list, after its line break: `id variable high low`.
pub open spec fn node_line(n: crate::bdd_node::DDNode) -> Seq<char> {
    seq!['\n'] + decimal(n.id.0 as nat) + seq![' '] + decimal(n.var.0 as nat) + seq![' '] + decimal(n.high.0 as nat)
        + seq![' '] + decimal(n.low.0 as nat)
}

/// The stored node list of the first `k` slots of a node table: one line per node.
pub open spec fn nodes_text(nodes: Seq<Option<crate::bdd_node::DDNode>>, k: int) -> Seq<char>
    decreases k,
{
    if k <= 0 {
        Seq::empty()
    } else {
        nodes_text(nodes, k - 1) + match nodes[k - 1] {
            Some(n) => node_line(n),
            None => Seq::empty(),
        }
    }
}

/// `FromIterator<&char>` for `String` of std: the string of the given characters, in order.
#[verifier::external_body]
pub(crate) fn chars_to_string(cs: &Vec<char>) -> (r: String)
    ensures
        r@ == cs@,
{
    cs.iter().collect()
}

/// The character of a decimal digit.
fn digit(d: usize) -> (c: char)
    requires
        d < 10,
    ensures
        c == digit_char(d as int),
{
    if d == 0 { '0' } else if d == 1 { '1' } else if d == 2 { '2' } else if d == 3 { '3' } else if d == 4 { '4' }
    else if d == 5 { '5' } else if d == 6 { '6' } else if d == 7 { '7' } else if d == 8 { '8' } else { '9' }
}

/// Appends the decimal digits of `n`.
pub(crate) fn push_decimal(out: &mut Vec<char>, n: usize)
    ensures
        final(out)@ == old(out)@ + decimal(n as nat),
    decreases n,
{
    if n >= 10 {
        push_decimal(out, n / 10);
    }
    out.push(digit(n % 10));
    proof {
        if n < 10 {
            assert(old(out)@ + decimal(n as nat) =~= old(out)@.push(digit_char(n as int)));
        } else {
            assert(old(out)@ + decimal(n as nat) =~= (old(out)@ + decimal((n / 10) as nat)).push(digit_char((n % 10) as int)));
        }
    }
}

/// Appends the characters of a text.
pub(crate) fn push_text(out: &mut Vec<char>, s: &str)
    ensures
        final(out)@ == old(out)@ + s@,
{
    let cs = text_chars(s);
    let mut k: usize = 0;
    while k < cs.len()
        invariant
            k <= cs@.len(),
            cs@ == s@,
            out@ == old(out)@ + cs@.subrange(0, k as int),
        decreases cs@.len() - k,
    {
        out.push(cs[k]);
        proof {
            assert(cs@.subrange(0, k + 1) =~= cs@.subrange(0, k as int).push(cs@[k as int]));
        }
        k = k + 1;
    }
    proof {
        assert(cs@.subrange(0, cs@.len() as int) =~= cs@);
    }
}

/// Appends the line of a node.
fn push_node_line(out: &mut Vec<char>, n: &crate::bdd_node::DDNode)
    ensures
        final(out)@ == old(out)@ + node_line(*n),
{
    out.push('\n');
    push_decimal(out, n.id.0);
    out.push(' ');
    push_decimal(out, n.var.0);
    out.push(' ');
    push_decimal(out, n.high.0);
    out.push(' ');
    push_decimal(out, n.low.0);
    proof {
        assert(out@ =~= old(out)@ + node_line(*n));
    }
}

impl DDManager {
    /// The stored object of the diagrams with these roots: the variable ordering, the roots, the
    /// node list with one line per node, and the statistics, each under the text of its ID.
    pub fn generate_bdd_file_object(&self, roots: Vec<NodeID>, statistics: Option<Vec<(NodeID, NodeStatistics)>>) -> (r: BddFile)
        ensures
            r.bdd.order@ == self.var2level@,
            r.bdd.roots@ == roots@,
            r.bdd.nodes@ == nodes_text(self.nodes@, self.nodes@.len() as int),
            match statistics {
                None => r.statistics is None,
                Some(v) => r.statistics matches Some(w) && w@.len() == v@.len()
                    && forall|i: int| 0 <= i < v@.len() ==> (#[trigger] w@[i]).0@ == decimal(v@[i].0.0 as nat) && w@[i].1 == v@[i].1,
            },
    {
        let mut order: Vec<usize> = Vec::new();
        let mut k: usize = 0;
        while k < self.var2level.len()
            invariant
                k <= self.var2level@.len(),
                order@ == self.var2level@.subrange(0, k as int),
            decreases self.var2level@.len() - k,
        {
            order.push(self.var2level[k]);
            proof {
                assert(self.var2level@.subrange(0, k + 1) =~= self.var2level@.subrange(0, k as int).push(self.var2level@[k as int]));
            }
            k = k + 1;
        }
        proof {
            assert(self.var2level@.subrange(0, self.var2level@.len() as int) =~= self.var2level@);
        }
        let mut text: Vec<char> = Vec::new();
        let mut i: usize = 0;
        while i < self.nodes.len()
            invariant
                i <= self.nodes@.len(),
                text@ == nodes_text(self.nodes@, i as int),
            decreases self.nodes@.len() - i,
        {
            match &self.nodes[i] {
                Some(n) => {
                    push_node_line(&mut text, n);
                },
                None => {
                    proof {
                        assert(text@ + Seq::<char>::empty() =~= text@);
                    }
                },
            }
            i = i + 1;
        }
        let nodes = chars_to_string(&text);
        let stats = match statistics {
            None => None,
            Some(v) => {
                let mut w: Vec<(String, NodeStatistics)> = Vec::new();
                let mut j: usize = 0;
                while j < v.len()
                    invariant
                        j <= v@.len(),
                        w@.len() == j,
                        forall|q: int| 0 <= q < j ==> (#[trigger] w@[q]).0@ == decimal(v@[q].0.0 as nat) && w@[q].1 == v@[q].1,
                    decreases v@.len() - j,
                {
                    let mut cs: Vec<char> = Vec::new();
                    push_decimal(&mut cs, v[j].0.0);
                    proof {
                        assert(cs@ =~= decimal(v@[j as int].0.0 as nat));
                    }
                    w.push((chars_to_string(&cs), v[j].1));
                    j = j + 1;
                }
                Some(w)
            },
        };
        BddFile { statistics: stats, bdd: StoredBdd { order, roots, nodes } }
    }
}

// ----------------------------------------------------------------------------------------
// Reading back what was written

/// The line of a node without its line break.
pub open spec fn line_body(n: crate::bdd_node::DDNode) -> Seq<char> {
    decimal(n.id.0 as nat) + seq![' '] + decimal(n.var.0 as nat) + seq![' '] + decimal(n.high.0 as nat)
        + seq![' '] + decimal(n.low.0 as nat)
}

/// The decimal digits of a number are digits, at least one, and read back as the number.
proof fn lemma_decimal(n: nat)
    ensures
        decimal(n).len() > 0,
        crate::parser::all_digits(decimal(n)),
        crate::parser::digits_value(decimal(n)) == n,
    decreases n,
{
    if n >= 10 {
        lemma_decimal(n / 10);
        let d = decimal(n / 10);
        let c = digit_char((n % 10) as int);
        assert(decimal(n).drop_last() =~= d);
        assert(c as int - '0' as int == n % 10);
        assert(crate::parser::digits_value(decimal(n)) == crate::parser::digits_value(d) * 10 + (c as int - '0' as int));
        assert((n / 10) * 10 + n % 10 == n) by (nonlinear_arith);
        assert forall|i: int| 0 <= i < decimal(n).len() implies '0' <= #[trigger] decimal(n)[i] <= '9' by {
            if i < d.len() {
                assert(decimal(n)[i] == d[i]);
            }
        }
    } else {
        assert(digit_char(n as int) as int - '0' as int == n);
        assert(decimal(n).drop_last() =~= Seq::<char>::empty());
        assert(decimal(n).last() == digit_char(n as int));
        assert(crate::parser::digits_value(Seq::<char>::empty()) == 0);
        assert(crate::parser::digits_value(decimal(n)) == crate::parser::digits_value(decimal(n).drop_last()) * 10
            + (decimal(n).last() as int - '0' as int));
    }
}

/// The decimal digits of a `usize` are a valid `usize` literal of its value.
proof fn lemma_decimal_literal(n: usize)
    ensures
        valid_usize_literal(decimal(n as nat)),
        usize_value(decimal(n as nat)) == n,
        forall|i: int| 0 <= i < decimal(n as nat).len() ==> !crate::parser::is_ws(#[trigger] decimal(n as nat)[i]) && decimal(n as nat)[i] != '\n',
{
    lemma_decimal(n as nat);
    let d = decimal(n as nat);
    assert('0' <= d[0] <= '9');
    assert(crate::dddmp::plus_part(d) == d);
    assert forall|i: int| 0 <= i < d.len() implies !crate::parser::is_ws(#[trigger] d[i]) && d[i] != '\n' by {
        assert('0' <= d[i] <= '9');
    }
}

/// Appending text without line breaks extends the last line.
proof fn lemma_lines_extend(x: Seq<char>, b: Seq<char>)
    requires
        forall|i: int| 0 <= i < b.len() ==> b[i] != '\n',
    ensures
        split_lines(x + b) == split_lines(x).update(split_lines(x).len() - 1, split_lines(x).last() + b),
    decreases b.len(),
{
    crate::parser::lemma_split_lines_len(x);
    if b.len() == 0 {
        assert(x + b =~= x);
        assert(split_lines(x).last() + b =~= split_lines(x).last());
        assert(split_lines(x).update(split_lines(x).len() - 1, split_lines(x).last()) =~= split_lines(x));
    } else {
        let b0 = b.drop_last();
        lemma_lines_extend(x, b0);
        assert((x + b).drop_last() =~= x + b0);
        assert((x + b).last() == b.last());
        crate::parser::lemma_split_lines_len(x + b0);
        let prev = split_lines(x + b0);
        assert(split_lines(x + b) == prev.update(prev.len() - 1, prev.last().push(b.last())));
        assert(prev.last() == split_lines(x).last() + b0);
        assert(prev.last().push(b.last()) =~= split_lines(x).last() + b);
        assert(split_lines(x + b) =~= split_lines(x).update(split_lines(x).len() - 1, split_lines(x).last() + b));
    }
}

/// A line break and a line without line breaks add that line.
proof fn lemma_lines_push(x: Seq<char>, b: Seq<char>)
    requires
        forall|i: int| 0 <= i < b.len() ==> b[i] != '\n',
    ensures
        split_lines(x + seq!['\n'] + b) == split_lines(x).push(b),
{
    let y = x + seq!['\n'];
    assert(y.drop_last() =~= x);
    assert(split_lines(y) == split_lines(x).push(Seq::<char>::empty()));
    lemma_lines_extend(y, b);
    assert(Seq::<char>::empty() + b =~= b);
    assert(split_lines(y).update(split_lines(y).len() - 1, split_lines(y).last() + b) =~= split_lines(x).push(b));
}

/// Reading a word of non-whitespace characters after whitespace (or nothing).
proof fn lemma_words_word(x: Seq<char>, b: Seq<char>)
    requires
        words_state_clear(x),
        forall|i: int| 0 <= i < b.len() ==> !crate::parser::is_ws(#[trigger] b[i]),
    ensures
        crate::parser::words_state(x + b) == (crate::parser::words_state(x).0, b),
    decreases b.len(),
{
    if b.len() == 0 {
        assert(x + b =~= x);
    } else {
        let b0 = b.drop_last();
        lemma_words_word(x, b0);
        assert((x + b).drop_last() =~= x + b0);
        assert((x + b).last() == b[b.len() - 1]);
        assert(b0.push(b.last()) =~= b);
    }
}

/// No word is being read at the end of `x`.
pub open spec fn words_state_clear(x: Seq<char>) -> bool {
    crate::parser::words_state(x).1.len() == 0
}

/// The words of the line of a node: its ID, its variable, its high and its low child.
#[verifier::spinoff_prover]
proof fn lemma_body_words(n: crate::bdd_node::DDNode)
    ensures
        words(line_body(n)) == seq![decimal(n.id.0 as nat), decimal(n.var.0 as nat), decimal(n.high.0 as nat), decimal(n.low.0 as nat)],
        forall|i: int| 0 <= i < line_body(n).len() ==> line_body(n)[i] != '\n',
{
    let d1 = decimal(n.id.0 as nat);
    let d2 = decimal(n.var.0 as nat);
    let d3 = decimal(n.high.0 as nat);
    let d4 = decimal(n.low.0 as nat);
    lemma_decimal_literal(n.id.0);
    lemma_decimal_literal(n.var.0);
    lemma_decimal_literal(n.high.0);
    lemma_decimal_literal(n.low.0);
    lemma_decimal(n.id.0 as nat);
    lemma_decimal(n.var.0 as nat);
    lemma_decimal(n.high.0 as nat);
    lemma_decimal(n.low.0 as nat);
    let e = Seq::<char>::empty();
    let sp = seq![' '];
    assert(crate::parser::words_state(e) == (Seq::<Seq<char>>::empty(), e));
    lemma_words_word(e, d1);
    assert(e + d1 =~= d1);
    let p1 = d1 + sp;
    assert(p1.drop_last() =~= d1);
    assert(crate::parser::words_state(p1) == (seq![d1], e));
    lemma_words_word(p1, d2);
    let p2 = p1 + d2 + sp;
    assert(p2.drop_last() =~= p1 + d2);
    assert(crate::parser::words_state(p2) == (seq![d1, d2], e));
    lemma_words_word(p2, d3);
    let p3 = p2 + d3 + sp;
    assert(p3.drop_last() =~= p2 + d3);
    assert(crate::parser::words_state(p3) == (seq![d1, d2, d3], e));
    lemma_words_word(p3, d4);
    assert(line_body(n) =~= p3 + d4);
    assert(words(line_body(n)) =~= seq![d1, d2, d3, d4]);
    assert forall|i: int| 0 <= i < line_body(n).len() implies line_body(n)[i] != '\n' by {
        assert(line_body(n) =~= p3 + d4);
        if i < d1.len() {
            assert(line_body(n)[i] == d1[i]);
        } else if i == d1.len() {
        } else if i < d1.len() + 1 + d2.len() {
            assert(line_body(n)[i] == d2[i - d1.len() - 1]);
        } else if i == d1.len() + 1 + d2.len() {
        } else if i < d1.len() + 2 + d2.len() + d3.len() {
            assert(line_body(n)[i] == d3[i - d1.len() - 2 - d2.len()]);
        } else if i == d1.len() + 2 + d2.len() + d3.len() {
        } else {
            assert(line_body(n)[i] == d4[i - d1.len() - 3 - d2.len() - d3.len()]);
        }
    }
}

/// The entry of a node in a node list.
pub open spec fn entry_of(n: crate::bdd_node::DDNode) -> (NodeID, VarID, NodeID, NodeID) {
    (n.id, n.var, n.high, n.low)
}

/// The node list of the first `k` slots of a node table, in the order of the slots.
pub open spec fn stored_entries(nodes: Seq<Option<crate::bdd_node::DDNode>>, k: int) -> Seq<(NodeID, VarID, NodeID, NodeID)>
    decreases k,
{
    if k <= 0 {
        Seq::empty()
    } else {
        stored_entries(nodes, k - 1) + match nodes[k - 1] {
            Some(n) => seq![entry_of(n)],
            None => Seq::empty(),
        }
    }
}

/// The terminals among the first `k` slots: the 1 terminal in slot 1, the 0 terminal in slot 0.
pub open spec fn stored_terminals(nodes: Seq<Option<crate::bdd_node::DDNode>>, k: int) -> (Option<usize>, Option<usize>) {
    (if k > 1 && nodes[1] is Some { Some(1usize) } else { None }, if k > 0 && nodes[0] is Some { Some(0usize) } else { None })
}

/// Every node of a well-formed manager carries the ID of its slot; the terminals are the two
/// constant nodes, every other node has a variable and two different children.
proof fn lemma_slot(man: &DDManager, j: int)
    requires
        man.wf(),
        man.live(j),
    ensures
        man.node(j).id.0 == j,
        j == 0 ==> man.node(j) == crate::bdd_node::spec_zero(),
        j == 1 ==> man.node(j) == crate::bdd_node::spec_one(),
        j >= 2 ==> man.node(j).var.0 >= 1 && man.node(j).low != man.node(j).high,
{
    man.lemma_terminals();
    if j >= 2 {
        man.lemma_inner(j);
    }
}

/// The stored node list of a well-formed manager: each live slot once, in the order of the
/// slots, with the node it holds.
proof fn lemma_stored_entries(man: &DDManager, k: int)
    requires
        man.wf(),
        0 <= k <= man.nodes@.len(),
    ensures
        forall|j: int| 0 <= j < stored_entries(man.nodes@, k).len() ==> {
            let e = #[trigger] stored_entries(man.nodes@, k)[j];
            &&& man.live(e.0.0 as int)
            &&& e.0.0 < k
            &&& e == entry_of(man.node(e.0.0 as int))
        },
        forall|a: int, b: int| 0 <= a < b < stored_entries(man.nodes@, k).len()
            ==> (#[trigger] stored_entries(man.nodes@, k)[a]).0.0 < (#[trigger] stored_entries(man.nodes@, k)[b]).0.0,
        forall|id: usize| #[trigger] in_list(stored_entries(man.nodes@, k), id) <==> (id < k && man.live(id as int)),
    decreases k,
{
    let nodes = man.nodes@;
    if k > 0 {
        lemma_stored_entries(man, k - 1);
        let prev = stored_entries(nodes, k - 1);
        let cur = stored_entries(nodes, k);
        if nodes[k - 1] is Some {
            lemma_slot(man, k - 1);
            assert(cur == prev.push(entry_of(man.node(k - 1))));
            assert forall|j: int| 0 <= j < cur.len() implies {
                let e = #[trigger] cur[j];
                &&& man.live(e.0.0 as int)
                &&& e.0.0 < k
                &&& e == entry_of(man.node(e.0.0 as int))
            } by {
                if j < prev.len() {
                    assert(cur[j] == prev[j]);
                }
            }
            assert forall|a: int, b: int| 0 <= a < b < cur.len() implies (#[trigger] cur[a]).0.0 < (#[trigger] cur[b]).0.0 by {
                assert(cur[a] == prev[a]);
                if b < prev.len() {
                    assert(cur[b] == prev[b]);
                }
            }
            assert forall|id: usize| #[trigger] in_list(cur, id) <==> (id < k && man.live(id as int)) by {
                if in_list(cur, id) {
                    let c = choose|c: int| 0 <= c < cur.len() && cur[c].0.0 == id;
                    if c < prev.len() {
                        assert(cur[c] == prev[c]);
                        assert(in_list(prev, id));
                    }
                }
                if id < k && man.live(id as int) {
                    if id < k - 1 {
                        assert(in_list(prev, id));
                        let c = choose|c: int| 0 <= c < prev.len() && prev[c].0.0 == id;
                        assert(cur[c] == prev[c]);
                    } else {
                        assert(cur[prev.len() as int].0.0 == id);
                    }
                }
            }
        } else {
            assert(cur =~= prev);
            assert forall|id: usize| #[trigger] in_list(cur, id) <==> (id < k && man.live(id as int)) by {
                if id == k - 1 {
                    assert(!man.live(id as int));
                }
            }
        }
    }
}

/// A longer node list starts as the shorter one was read.
proof fn lemma_fold_prefix(s: Seq<Seq<Seq<char>>>, x: Seq<Seq<char>>, j: int)
    requires
        0 <= j <= s.len(),
    ensures
        node_text_fold(s.push(x), j) == node_text_fold(s, j),
    decreases j,
{
    if j > 0 {
        lemma_fold_prefix(s, x, j - 1);
        assert(s.push(x)[j - 1] == s[j - 1]);
    }
}

/// The lines of the stored node list of the first `k` slots: one empty line, then the line of
/// each node.
proof fn lemma_text_lines(nodes: Seq<Option<crate::bdd_node::DDNode>>, k: int)
    requires
        0 < k <= nodes.len(),
    ensures
        text_line_words(nodes_text(nodes, k)) == match nodes[k - 1] {
            Some(n) => text_line_words(nodes_text(nodes, k - 1)).push(words(line_body(n))),
            None => text_line_words(nodes_text(nodes, k - 1)),
        },
{
    let prev = nodes_text(nodes, k - 1);
    match nodes[k - 1] {
        Some(n) => {
            lemma_body_words(n);
            assert(nodes_text(nodes, k) =~= prev + seq!['\n'] + line_body(n));
            lemma_lines_push(prev, line_body(n));
            assert(split_lines(prev).push(line_body(n)).map_values(|l: Seq<char>| words(l))
                =~= split_lines(prev).map_values(|l: Seq<char>| words(l)).push(words(line_body(n))));
        },
        None => {
            assert(nodes_text(nodes, k) =~= prev);
        },
    }
}

/// Reading the stored node list of the first `k` slots gives the node of each live slot, in the
/// order of the slots, and the terminals among them.
proof fn lemma_read_stored(man: &DDManager, k: int)
    requires
        man.wf(),
        0 <= k <= man.nodes@.len(),
    ensures
        node_text_fold(text_line_words(nodes_text(man.nodes@, k)), text_line_words(nodes_text(man.nodes@, k)).len() as int)
            == Ok::<_, BddFileFailure>((stored_entries(man.nodes@, k), stored_terminals(man.nodes@, k))),
    decreases k,
{
    let nodes = man.nodes@;
    if k == 0 {
        let lw = text_line_words(nodes_text(nodes, 0));
        assert(nodes_text(nodes, 0) =~= Seq::<char>::empty());
        assert(split_lines(Seq::<char>::empty()) == seq![Seq::<char>::empty()]);
        assert(lw =~= seq![words(Seq::<char>::empty())]);
        assert(words(Seq::<char>::empty()) =~= Seq::<Seq<char>>::empty());
        assert(node_text_fold(lw, 0) == Ok::<_, BddFileFailure>((Seq::<(NodeID, VarID, NodeID, NodeID)>::empty(), (None::<usize>, None::<usize>))));
        assert(stored_entries(nodes, 0) =~= Seq::<(NodeID, VarID, NodeID, NodeID)>::empty());
    } else {
        lemma_read_stored(man, k - 1);
        lemma_text_lines(nodes, k);
        let prev = text_line_words(nodes_text(nodes, k - 1));
        let cur = text_line_words(nodes_text(nodes, k));
        match nodes[k - 1] {
            Some(n) => {
                let s = k - 1;
                assert(man.live(s));
                assert(man.node(s) == n);
                lemma_slot(man, s);
                lemma_stored_entries(man, k - 1);
                lemma_body_words(n);
                lemma_decimal_literal(n.id.0);
                lemma_decimal_literal(n.var.0);
                lemma_decimal_literal(n.high.0);
                lemma_decimal_literal(n.low.0);
                lemma_fold_prefix(prev, words(line_body(n)), prev.len() as int);
                let l = words(line_body(n));
                assert(cur == prev.push(l));
                assert(cur[prev.len() as int] == l);
                assert(node_text_fold(cur, cur.len() as int) == node_text_step((stored_entries(nodes, k - 1), stored_terminals(nodes, k - 1)), l));
                assert(all_usize(l)) by {
                    assert forall|i: int| 0 <= i < l.len() implies valid_usize_literal(#[trigger] l[i]) by {
                        assert(l[0] == decimal(n.id.0 as nat));
                        assert(l[1] == decimal(n.var.0 as nat));
                        assert(l[2] == decimal(n.high.0 as nat));
                        assert(l[3] == decimal(n.low.0 as nat));
                    }
                }
                assert(!in_list(stored_entries(nodes, k - 1), n.id.0));
                let e = entry_of(n);
                assert(e == (NodeID(usize_value(l[0])), VarID(usize_value(l[1])), NodeID(usize_value(l[2])), NodeID(usize_value(l[3]))));
                assert(with_entry(stored_entries(nodes, k - 1), e) == stored_entries(nodes, k));
                if s >= 2 {
                    assert(n.high.0 != n.low.0);
                    assert(stored_terminals(nodes, k) == stored_terminals(nodes, k - 1));
                }
            },
            None => {
                assert(stored_entries(nodes, k) =~= stored_entries(nodes, k - 1));
                man.lemma_terminals();
                assert(k - 1 >= 2);
                assert(stored_terminals(nodes, k) == stored_terminals(nodes, k - 1));
            },
        }
    }
}

/// The entry found in the stored node list for a live slot is that of its node.
proof fn lemma_stored_entry(man: &DDManager, id: usize)
    requires
        man.wf(),
        man.live(id as int),
    ensures
        in_list(stored_entries(man.nodes@, man.nodes@.len() as int), id),
        stored_entries(man.nodes@, man.nodes@.len() as int)[entry_index(stored_entries(man.nodes@, man.nodes@.len() as int), id)]
            == entry_of(man.node(id as int)),
{
    let list = stored_entries(man.nodes@, man.nodes@.len() as int);
    lemma_stored_entries(man, man.nodes@.len() as int);
    assert(in_list(list, id));
    let c = entry_index(list, id);
    assert(list[c].0.0 == id);
}

/// The stored node list of a well-formed manager describes an ordered diagram with the
/// terminals 1 and 0.
proof fn lemma_stored_wf(man: &DDManager)
    requires
        man.wf(),
    ensures
        list_wf(stored_entries(man.nodes@, man.nodes@.len() as int), man.var2level@, (NodeID(1), NodeID(0))),
{
    let list = stored_entries(man.nodes@, man.nodes@.len() as int);
    let order = man.var2level@;
    let t = (NodeID(1usize), NodeID(0usize));
    lemma_stored_entries(man, man.nodes@.len() as int);
    man.lemma_valid_levels();
    man.lemma_terminals();
    assert forall|k: int| 0 <= k < list.len() implies (#[trigger] list[k]).1.0 < order.len() by {
        man.lemma_level_bound(list[k].0.0 as int);
    }
    assert forall|k: int| 0 <= k < list.len() && !is_terminal(t, (#[trigger] list[k]).0.0) implies {
        let e = list[k];
        &&& 1 <= e.1.0
        &&& known(list, t, e.2.0)
        &&& known(list, t, e.3.0)
        &&& list_level(list, order, t, e.2.0) > order[e.1.0 as int]
        &&& list_level(list, order, t, e.3.0) > order[e.1.0 as int]
    } by {
        let e = list[k];
        let x = e.0.0 as int;
        assert(x >= 2);
        man.lemma_inner(x);
        let n = man.node(x);
        lemma_stored_entry(man, n.high.0);
        lemma_stored_entry(man, n.low.0);
        if !is_terminal(t, n.high.0) {
            assert(list_level(list, order, t, n.high.0) == man.level(n.high.0 as int));
        } else {
            lemma_slot(man, n.high.0 as int);
        }
        if !is_terminal(t, n.low.0) {
            assert(list_level(list, order, t, n.low.0) == man.level(n.low.0 as int));
        } else {
            lemma_slot(man, n.low.0 as int);
        }
    }
}

/// Every live node of the manager has, in its stored node list, the function it has in the
/// manager.
proof fn lemma_stored_sem(man: &DDManager, id: usize, a: Assignment)
    requires
        man.wf(),
        man.live(id as int),
    ensures
        list_sem(stored_entries(man.nodes@, man.nodes@.len() as int), man.var2level@, (NodeID(1), NodeID(0)), id, a)
            == man.sem(id as int, a),
    decreases man.terminal_level() - man.level(id as int),
{
    let list = stored_entries(man.nodes@, man.nodes@.len() as int);
    let t = (NodeID(1usize), NodeID(0usize));
    lemma_stored_wf(man);
    lemma_stored_entry(man, id);
    man.lemma_terminals();
    man.lemma_ordered();
    reveal(list_sem);
    if id >= 2 {
        man.lemma_inner(id as int);
        let n = man.node(id as int);
        lemma_stored_sem(man, n.high.0, a);
        lemma_stored_sem(man, n.low.0, a);
        assert(man.sem(id as int, a) == if a(n.var.0) { man.sem(n.high.0 as int, a) } else { man.sem(n.low.0 as int, a) });
    }
}

/// Writing a diagram and reading it back gives back its functions: the node list stored for a
/// well-formed manager reads, with any of its live nodes as roots, as an ordered node list with
/// the terminals 1 and 0, in which every live node of the manager has the function it has in
/// the manager.
pub proof fn lemma_store_then_read(man: &DDManager, roots: Seq<NodeID>)
    requires
        man.wf(),
        forall|i: int| 0 <= i < roots.len() ==> man.live(#[trigger] roots[i].0 as int),
    ensures
        ({
            let list = stored_entries(man.nodes@, man.nodes@.len() as int);
            let t = (NodeID(1usize), NodeID(0usize));
            &&& stored_outcome(roots, nodes_text(man.nodes@, man.nodes@.len() as int)) == Ok::<_, BddFileFailure>((list, t))
            &&& list_wf(list, man.var2level@, t)
            &&& forall|id: usize| man.live(id as int) ==> #[trigger] known(list, t, id)
            &&& forall|id: usize, a: Assignment| man.live(id as int)
                ==> #[trigger] list_sem(list, man.var2level@, t, id, a) == man.sem(id as int, a)
        }),
{
    let n = man.nodes@.len() as int;
    let list = stored_entries(man.nodes@, n);
    let t = (NodeID(1usize), NodeID(0usize));
    lemma_read_stored(man, n);
    lemma_stored_entries(man, n);
    lemma_stored_wf(man);
    man.lemma_terminals();
    assert(stored_terminals(man.nodes@, n) == (Some(1usize), Some(0usize)));
    assert(!(exists|i: int| 0 <= i < roots.len() && !in_list(list, #[trigger] roots[i].0))) by {
        assert forall|i: int| 0 <= i < roots.len() implies in_list(list, #[trigger] roots[i].0) by {
            assert(man.live(roots[i].0 as int));
        }
    }
    assert forall|id: usize| man.live(id as int) implies #[trigger] known(list, t, id) by {
        assert(in_list(list, id));
    }
    assert forall|id: usize, a: Assignment| man.live(id as int)
        implies #[trigger] list_sem(list, man.var2level@, t, id, a) == man.sem(id as int, a) by {
        lemma_stored_sem(man, id, a);
    }
}

} // verus!
