//! Sequences of adjacent swaps that run through every order of a window of levels.
use vstd::prelude::*;

verus! {

/// The swaps moving the element at position `from + i` up to `from`, one step at a time.
pub open spec fn swaps_up(from: int, i: int) -> Seq<(usize, usize)>
    decreases i,
{
    if i <= 0 {
        Seq::empty()
    } else {
        seq![((from + i - 1) as usize, (from + i) as usize)] + swaps_up(from, i - 1)
    }
}

/// The swaps moving the element at position `from` down to `from + i`, one step at a time.
pub open spec fn swaps_down(from: int, i: int) -> Seq<(usize, usize)>
    decreases i,
{
    if i <= 0 {
        Seq::empty()
    } else {
        swaps_down(from, i - 1) + seq![((from + i - 1) as usize, (from + i) as usize)]
    }
}

/// For each position `i` of the window, in turn: move its element up to the top, run through
/// the orders of the rest of the window, and move the element back.
pub open spec fn blocks(from: int, to: int, i: int) -> Seq<(usize, usize)>
    decreases to - from, 0int, i,
{
    if i <= 0 || from >= to {
        Seq::empty()
    } else {
        blocks(from, to, i - 1) + swaps_up(from, i - 1) + gen_perm(from + 1, to) + swaps_down(from, i - 1)
    }
}

/// The swap sequence of `gen_permutation(from, to)`.
pub open spec fn gen_perm(from: int, to: int) -> Seq<(usize, usize)>
    decreases to - from, 1int, 0int,
{
    let size = to - from + 1;
    if size <= 1 {
        Seq::empty()
    } else if size == 2 {
        seq![(from as usize, to as usize), (to as usize, from as usize)]
    } else if size == 3 {
        let a = (from as usize, (from + 1) as usize);
        let b = ((from + 1) as usize, (from + 2) as usize);
        seq![a, b, a, b, a, b]
    } else {
        blocks(from, to, size)
    }
}

/// Swapping two entries of a sequence.
pub open spec fn swap_entries<T>(s: Seq<T>, a: int, b: int) -> Seq<T> {
    s.update(a, s[b]).update(b, s[a])
}

/// Applying a sequence of swaps, first to last.
pub open spec fn apply_swaps<T>(s: Seq<T>, swaps: Seq<(usize, usize)>) -> Seq<T>
    decreases swaps.len(),
{
    if swaps.len() == 0 {
        s
    } else {
        apply_swaps(swap_entries(s, swaps[0].0 as int, swaps[0].1 as int), swaps.drop_first())
    }
}

/// Applying two sequences of swaps one after the other.
pub proof fn lemma_apply_concat<T>(s: Seq<T>, x: Seq<(usize, usize)>, y: Seq<(usize, usize)>)
    ensures
        apply_swaps(s, x + y) == apply_swaps(apply_swaps(s, x), y),
    decreases x.len(),
{
    if x.len() > 0 {
        assert((x + y).drop_first() =~= x.drop_first() + y);
        assert((x + y)[0] == x[0]);
        lemma_apply_concat(swap_entries(s, x[0].0 as int, x[0].1 as int), x.drop_first(), y);
    } else {
        assert(x + y =~= y);
    }
}

/// Every swap of the sequence exchanges two neighbouring positions inside the window.
pub open spec fn adjacent_within(swaps: Seq<(usize, usize)>, from: int, to: int) -> bool {
    forall|k: int| 0 <= k < swaps.len() ==> {
        let (a, b) = #[trigger] swaps[k];
        &&& from <= a <= to
        &&& from <= b <= to
        &&& (a == b + 1 || b == a + 1)
    }
}

proof fn lemma_adjacent_concat(x: Seq<(usize, usize)>, y: Seq<(usize, usize)>, from: int, to: int)
    requires
        adjacent_within(x, from, to),
        adjacent_within(y, from, to),
    ensures
        adjacent_within(x + y, from, to),
{
    assert forall|k: int| 0 <= k < (x + y).len() implies {
        let (a, b) = #[trigger] (x + y)[k];
        &&& from <= a <= to
        &&& from <= b <= to
        &&& (a == b + 1 || b == a + 1)
    } by {
        if k < x.len() {
            assert((x + y)[k] == x[k]);
        } else {
            assert((x + y)[k] == y[k - x.len()]);
        }
    }
}

proof fn lemma_up_down_adjacent(from: int, i: int, to: int)
    requires
        0 <= from,
        0 <= i,
        from + i <= to,
        to <= usize::MAX,
    ensures
        adjacent_within(swaps_up(from, i), from, to),
        adjacent_within(swaps_down(from, i), from, to),
    decreases i,
{
    if i > 0 {
        lemma_up_down_adjacent(from, i - 1, to);
        let e = seq![((from + i - 1) as usize, (from + i) as usize)];
        assert(adjacent_within(e, from, to));
        lemma_adjacent_concat(e, swaps_up(from, i - 1), from, to);
        lemma_adjacent_concat(swaps_down(from, i - 1), e, from, to);
    }
}

/// Moving an element up and back down again restores the sequence, when the middle part
/// (acting on the positions below the top) restores it too.
proof fn lemma_up_down<T>(s: Seq<T>, from: int, i: int)
    requires
        0 <= from,
        0 <= i,
        from + i < s.len(),
        from + i <= usize::MAX,
    ensures
        apply_swaps(apply_swaps(s, swaps_up(from, i)), swaps_down(from, i)) == s,
        apply_swaps(s, swaps_up(from, i)).len() == s.len(),
    decreases i,
{
    if i > 0 {
        reveal_with_fuel(apply_swaps, 2);
        let e = seq![((from + i - 1) as usize, (from + i) as usize)];
        let t = swap_entries(s, from + i - 1, from + i);
        assert(apply_swaps(s, e) == t) by {
            assert(e.drop_first() =~= Seq::<(usize, usize)>::empty());
        }
        lemma_apply_concat(s, e, swaps_up(from, i - 1));
        lemma_up_down(t, from, i - 1);
        let u = apply_swaps(s, swaps_up(from, i));
        lemma_apply_concat(u, swaps_down(from, i - 1), e);
        assert(apply_swaps(t, e) == s) by {
            assert(e.drop_first() =~= Seq::<(usize, usize)>::empty());
            assert(swap_entries(t, from + i - 1, from + i) =~= s);
        }
    }
}

/// Swaps that run through every order of the window `from..=to` and restore the sequence.
pub proof fn lemma_gen_perm_identity<T>(s: Seq<T>, from: int, to: int)
    requires
        0 <= from <= to,
        to < s.len(),
        to <= usize::MAX,
    ensures
        apply_swaps(s, gen_perm(from, to)) == s,
        adjacent_within(gen_perm(from, to), from, to),
    decreases to - from, 1int, 0int,
{
    let size = to - from + 1;
    if size == 1 {
    } else if size == 2 {
        reveal_with_fuel(apply_swaps, 3);
        let p = gen_perm(from, to);
        assert(p.drop_first().drop_first() =~= Seq::<(usize, usize)>::empty());
        assert(swap_entries(swap_entries(s, from, to), to, from) =~= s);
    } else if size == 3 {
        reveal_with_fuel(apply_swaps, 7);
        let p = gen_perm(from, to);
        let a = from;
        let b = from + 1;
        let c = from + 2;
        let s1 = swap_entries(s, a, b);
        let s2 = swap_entries(s1, b, c);
        let s3 = swap_entries(s2, a, b);
        let s4 = swap_entries(s3, b, c);
        let s5 = swap_entries(s4, a, b);
        let s6 = swap_entries(s5, b, c);
        assert(s6 =~= s);
        assert(p.drop_first().drop_first().drop_first().drop_first().drop_first().drop_first()
            =~= Seq::<(usize, usize)>::empty());
        assert(apply_swaps(s, p) == apply_swaps(s6, Seq::<(usize, usize)>::empty()));
    } else {
        lemma_blocks_identity(s, from, to, size);
    }
}

/// Each block restores the sequence.
proof fn lemma_blocks_identity<T>(s: Seq<T>, from: int, to: int, i: int)
    requires
        0 <= from < to,
        to < s.len(),
        to <= usize::MAX,
        0 <= i <= to - from + 1,
    ensures
        apply_swaps(s, blocks(from, to, i)) == s,
        adjacent_within(blocks(from, to, i), from, to),
    decreases to - from, 0int, i,
{
    if i > 0 {
        lemma_blocks_identity(s, from, to, i - 1);
        let up = swaps_up(from, i - 1);
        let mid = gen_perm(from + 1, to);
        let down = swaps_down(from, i - 1);
        let prev = blocks(from, to, i - 1);
        lemma_apply_concat(s, prev + up + mid, down);
        lemma_apply_concat(s, prev + up, mid);
        lemma_apply_concat(s, prev, up);
        let u = apply_swaps(s, up);
        lemma_up_down(s, from, i - 1);
        lemma_gen_perm_identity(u, from + 1, to);
        lemma_up_down_adjacent(from, i - 1, to);
        lemma_adjacent_concat(prev, up, from, to);
        assert(adjacent_within(mid, from, to)) by {
            assert forall|k: int| 0 <= k < mid.len() implies {
                let (a, b) = #[trigger] mid[k];
                &&& from <= a <= to
                &&& from <= b <= to
                &&& (a == b + 1 || b == a + 1)
            } by {
                let (a, b) = mid[k];
            }
        }
        lemma_adjacent_concat(prev + up, mid, from, to);
        lemma_adjacent_concat(prev + up + mid, down, from, to);
    }
}

/// Generate a list of permutations for a range of variables: a sequence of swaps of
/// neighbouring levels that runs through the orders of the levels `from..=to`.
pub fn gen_permutation(from: usize, to: usize) -> (r: Vec<(usize, usize)>)
    requires
        from <= to + 1,
        to < usize::MAX,
    ensures
        r@ == gen_perm(from as int, to as int),
    decreases to + 1 - from,
{
    if from > to {
        return Vec::new();
    }
    let size = to - from + 1;
    if size <= 1 {
        return Vec::new();
    }
    if size == 2 {
        return vec![(from, to), (to, from)];
    }
    if size == 3 {
        return vec![
            (from, from + 1),
            (from + 1, from + 2),
            (from, from + 1),
            (from + 1, from + 2),
            (from, from + 1),
            (from + 1, from + 2),
        ];
    }
    let mut permutation: Vec<(usize, usize)> = Vec::new();
    let mut i: usize = 0;
    while i < size
        invariant
            from < to < usize::MAX,
            size == to - from + 1,
            size > 3,
            i <= size,
            permutation@ == blocks(from as int, to as int, i as int),
        decreases size - i,
    {
        let ghost before = permutation@;
        proof {
            lemma_up_len(from as int, i as int);
        }
        let mut j: usize = 0;
        while j < i
            invariant
                from < to < usize::MAX,
                i < size == to - from + 1,
                j <= i,
                permutation@ == before + swaps_up(from as int, i as int).subrange(0, j as int),
            decreases i - j,
        {
            // move var j to top
            proof {
                lemma_up_shape(from as int, i as int, j as int);
            }
            permutation.push((from + i - j - 1, from + i - j));
            j = j + 1;
        }
        proof {
            assert(swaps_up(from as int, i as int).subrange(0, i as int) =~= swaps_up(from as int, i as int));
        }
        let mut rest = gen_permutation(from + 1, to);
        permutation.append(&mut rest);
        let ghost mid = permutation@;
        let mut j: usize = 0;
        while j < i
            invariant
                from < to < usize::MAX,
                i < size == to - from + 1,
                j <= i,
                permutation@ == mid + swaps_down(from as int, i as int).subrange(0, j as int),
            decreases i - j,
        {
            // move var j back down
            proof {
                lemma_down_shape(from as int, i as int, j as int);
            }
            permutation.push((from + j, from + j + 1));
            j = j + 1;
        }
        proof {
            assert(swaps_down(from as int, i as int).subrange(0, i as int) =~= swaps_down(from as int, i as int));
            assert(blocks(from as int, to as int, i + 1) == before + swaps_up(from as int, i as int)
                + gen_perm(from + 1, to as int) + swaps_down(from as int, i as int));
        }
        i = i + 1;
    }
    permutation
}

/// The `j`-th swap moving an element up.
proof fn lemma_up_shape(from: int, i: int, j: int)
    requires
        0 <= j < i,
    ensures
        swaps_up(from, i).len() == i,
        swaps_up(from, i)[j] == ((from + i - j - 1) as usize, (from + i - j) as usize),
    decreases i,
{
    if j > 0 {
        lemma_up_shape(from, i - 1, j - 1);
    }
    lemma_up_len(from, i - 1);
}

proof fn lemma_up_len(from: int, i: int)
    ensures
        swaps_up(from, i).len() == if i < 0 { 0 } else { i },
        swaps_down(from, i).len() == if i < 0 { 0 } else { i },
    decreases i,
{
    if i > 0 {
        lemma_up_len(from, i - 1);
    }
}

/// The `j`-th swap moving an element down.
proof fn lemma_down_shape(from: int, i: int, j: int)
    requires
        0 <= j < i,
    ensures
        swaps_down(from, i).len() == i,
        swaps_down(from, i)[j] == ((from + j) as usize, (from + j + 1) as usize),
    decreases i,
{
    lemma_up_len(from, i - 1);
    if j < i - 1 {
        lemma_down_shape(from, i - 1, j);
    }
}


/// The positions `from..=to` of a sequence.
pub open spec fn window<T>(s: Seq<T>, from: int, to: int) -> Seq<T> {
    s.subrange(from, to + 1)
}

/// `t` is an order of the distinct elements of `w`: as long, no element twice, the same
/// elements.
pub open spec fn rearranges<T>(t: Seq<T>, w: Seq<T>) -> bool {
    &&& t.len() == w.len()
    &&& t.no_duplicates()
    &&& forall|x: T| t.contains(x) <==> w.contains(x)
}

/// After the first `j` swaps of `gen_perm(from, to)`, the window of `s` reads `t`.
pub open spec fn reached<T>(s: Seq<T>, from: int, to: int, j: int, t: Seq<T>) -> bool {
    &&& 0 <= j <= gen_perm(from, to).len()
    &&& window(apply_swaps(s, gen_perm(from, to).take(j)), from, to) == t
}

/// Moving the element at `from + i` up to `from`: the ones between move down by one.
proof fn lemma_up_apply<T>(s: Seq<T>, from: int, i: int)
    requires
        0 <= from,
        0 <= i,
        from + i < s.len(),
        from + i <= usize::MAX,
    ensures
        apply_swaps(s, swaps_up(from, i)) == Seq::new(s.len(), |k: int|
            if k == from { s[from + i] } else if from < k <= from + i { s[k - 1] } else { s[k] }),
    decreases i,
{
    if i == 0 {
        assert(swaps_up(from, 0) =~= Seq::<(usize, usize)>::empty());
        assert(apply_swaps(s, swaps_up(from, i)) =~= Seq::new(s.len(), |k: int|
            if k == from { s[from + i] } else if from < k <= from + i { s[k - 1] } else { s[k] }));
    } else {
        reveal_with_fuel(apply_swaps, 2);
        let e = seq![((from + i - 1) as usize, (from + i) as usize)];
        let t = swap_entries(s, from + i - 1, from + i);
        assert(apply_swaps(s, e) == t) by {
            assert(e.drop_first() =~= Seq::<(usize, usize)>::empty());
        }
        lemma_apply_concat(s, e, swaps_up(from, i - 1));
        lemma_up_apply(t, from, i - 1);
        assert(apply_swaps(s, swaps_up(from, i)) =~= Seq::new(s.len(), |k: int|
            if k == from { s[from + i] } else if from < k <= from + i { s[k - 1] } else { s[k] }));
    }
}

/// Swaps inside the window leave the positions outside it, and the length, as they were.
proof fn lemma_outside<T>(s: Seq<T>, swaps: Seq<(usize, usize)>, from: int, to: int)
    requires
        adjacent_within(swaps, from, to),
        to < s.len(),
        0 <= from,
    ensures
        apply_swaps(s, swaps).len() == s.len(),
        forall|k: int| 0 <= k < s.len() && (k < from || k > to) ==> #[trigger] apply_swaps(s, swaps)[k] == s[k],
    decreases swaps.len(),
{
    if swaps.len() > 0 {
        let (a, b) = swaps[0];
        assert(from <= a <= to && from <= b <= to);
        let t = swap_entries(s, a as int, b as int);
        assert forall|k: int| 0 <= k < swaps.drop_first().len() implies {
            let (x, y) = #[trigger] swaps.drop_first()[k];
            &&& from <= x <= to
            &&& from <= y <= to
            &&& (x == y + 1 || y == x + 1)
        } by {
            assert(swaps.drop_first()[k] == swaps[k + 1]);
        }
        lemma_outside(t, swaps.drop_first(), from, to);
    }
}

/// The first `m` blocks begin the first `n`.
proof fn lemma_blocks_prefix(from: int, to: int, m: int, n: int)
    requires
        0 <= m <= n,
        from < to,
    ensures
        blocks(from, to, n).len() >= blocks(from, to, m).len(),
        blocks(from, to, n).take(blocks(from, to, m).len() as int) == blocks(from, to, m),
    decreases n,
{
    if n > m {
        lemma_blocks_prefix(from, to, m, n - 1);
        let b = blocks(from, to, n - 1);
        let rest = swaps_up(from, n - 1) + gen_perm(from + 1, to) + swaps_down(from, n - 1);
        assert(blocks(from, to, n) =~= b + rest);
        assert((b + rest).take(blocks(from, to, m).len() as int) =~= b.take(blocks(from, to, m).len() as int));
    } else {
        assert(blocks(from, to, n).take(blocks(from, to, n).len() as int) =~= blocks(from, to, n));
    }
}

/// A prefix of swaps inside the window stays inside it.
proof fn lemma_adjacent_take(swaps: Seq<(usize, usize)>, from: int, to: int, j: int)
    requires
        adjacent_within(swaps, from, to),
        0 <= j <= swaps.len(),
    ensures
        adjacent_within(swaps.take(j), from, to),
{
    assert forall|k: int| 0 <= k < swaps.take(j).len() implies {
        let (a, b) = #[trigger] swaps.take(j)[k];
        &&& from <= a <= to
        &&& from <= b <= to
        &&& (a == b + 1 || b == a + 1)
    } by {
        assert(swaps.take(j)[k] == swaps[k]);
    }
}

/// The swaps of `gen_permutation(from, to)` run through every order of the window
/// `from..=to`: for each order `t` of its (distinct) elements, some prefix of the swaps
/// leaves the window reading `t`.
pub proof fn lemma_gen_perm_visits_all<T>(s: Seq<T>, from: int, to: int, t: Seq<T>)
    requires
        0 <= from <= to,
        to < s.len(),
        to <= usize::MAX,
        window(s, from, to).no_duplicates(),
        rearranges(t, window(s, from, to)),
    ensures
        exists|j: int| #[trigger] reached(s, from, to, j, t),
    decreases to - from,
{
    let w = window(s, from, to);
    let size = to - from + 1;
    let gp = gen_perm(from, to);
    assert(w.contains(t[0])) by {
        assert(t.contains(t[0]));
    }
    let i0 = choose|i: int| 0 <= i < w.len() && w[i] == t[0];
    if size == 1 {
        assert(gp.take(0) =~= Seq::<(usize, usize)>::empty());
        assert(window(apply_swaps(s, gp.take(0)), from, to) =~= t);
        assert(reached(s, from, to, 0, t));
    } else if size == 2 {
        reveal_with_fuel(apply_swaps, 3);
        assert(w.contains(t[1])) by {
            assert(t.contains(t[1]));
        }
        if t[0] == w[0] {
            assert(t[1] == w[1]);
            assert(gp.take(0) =~= Seq::<(usize, usize)>::empty());
            assert(window(apply_swaps(s, gp.take(0)), from, to) =~= t);
            assert(reached(s, from, to, 0, t));
        } else {
            assert(t[0] == w[1] && t[1] == w[0]);
            assert(gp.take(1) =~= seq![(from as usize, to as usize)]);
            assert(gp.take(1).drop_first() =~= Seq::<(usize, usize)>::empty());
            assert(window(apply_swaps(s, gp.take(1)), from, to) =~= t);
            assert(reached(s, from, to, 1, t));
        }
    } else if size == 3 {
        lemma_visits_three(s, from, to, t);
    } else {
        lemma_visits_step(s, from, to, t);
    }
}

/// Windows of three: the six prefixes of the swap sequence give the six orders.
proof fn lemma_visits_three<T>(s: Seq<T>, from: int, to: int, t: Seq<T>)
    requires
        0 <= from,
        to == from + 2,
        to < s.len(),
        to <= usize::MAX,
        window(s, from, to).no_duplicates(),
        rearranges(t, window(s, from, to)),
    ensures
        exists|j: int| #[trigger] reached(s, from, to, j, t),
{
    reveal_with_fuel(apply_swaps, 7);
    let w = window(s, from, to);
    let gp = gen_perm(from, to);
    let a = (from as usize, (from + 1) as usize);
    let b = ((from + 1) as usize, (from + 2) as usize);
    assert(gp == seq![a, b, a, b, a, b]);
    assert(w.contains(t[0])) by { assert(t.contains(t[0])); }
    assert(w.contains(t[1])) by { assert(t.contains(t[1])); }
    assert(w.contains(t[2])) by { assert(t.contains(t[2])); }
    let x = w[0];
    let y = w[1];
    let z = w[2];
    let s1 = swap_entries(s, from, from + 1);
    let s2 = swap_entries(s1, from + 1, from + 2);
    let s3 = swap_entries(s2, from, from + 1);
    let s4 = swap_entries(s3, from + 1, from + 2);
    let s5 = swap_entries(s4, from, from + 1);
    assert(gp.take(0) =~= Seq::<(usize, usize)>::empty());
    assert(gp.take(1) =~= seq![a]);
    assert(gp.take(2) =~= seq![a, b]);
    assert(gp.take(3) =~= seq![a, b, a]);
    assert(gp.take(4) =~= seq![a, b, a, b]);
    assert(gp.take(5) =~= seq![a, b, a, b, a]);
    assert(seq![a].drop_first() =~= Seq::<(usize, usize)>::empty());
    assert(seq![a, b].drop_first() =~= seq![b]);
    assert(seq![b].drop_first() =~= Seq::<(usize, usize)>::empty());
    assert(seq![a, b, a].drop_first() =~= seq![b, a]);
    assert(seq![b, a].drop_first() =~= seq![a]);
    assert(seq![a, b, a, b].drop_first() =~= seq![b, a, b]);
    assert(seq![b, a, b].drop_first() =~= seq![a, b]);
    assert(seq![a, b, a, b, a].drop_first() =~= seq![b, a, b, a]);
    assert(seq![b, a, b, a].drop_first() =~= seq![a, b, a]);
    assert(apply_swaps(s, gp.take(0)) == s);
    assert(apply_swaps(s, gp.take(1)) == s1);
    assert(apply_swaps(s, gp.take(2)) == s2);
    assert(apply_swaps(s, gp.take(3)) == s3);
    assert(apply_swaps(s, gp.take(4)) == s4);
    assert(apply_swaps(s, gp.take(5)) == s5);
    // the windows: x y z, y x z, y z x, z y x, z x y, x z y
    assert(window(s, from, to) =~= seq![x, y, z]);
    assert(window(s1, from, to) =~= seq![y, x, z]);
    assert(window(s2, from, to) =~= seq![y, z, x]);
    assert(window(s3, from, to) =~= seq![z, y, x]);
    assert(window(s4, from, to) =~= seq![z, x, y]);
    assert(window(s5, from, to) =~= seq![x, z, y]);
    assert(x != y && y != z && x != z);
    assert(t[0] != t[1] && t[1] != t[2] && t[0] != t[2]);
    assert(t =~= seq![t[0], t[1], t[2]]);
    if t[0] == x && t[1] == y {
        assert(reached(s, from, to, 0, t));
    } else if t[0] == y && t[1] == x {
        assert(reached(s, from, to, 1, t));
    } else if t[0] == y && t[1] == z {
        assert(reached(s, from, to, 2, t));
    } else if t[0] == z && t[1] == y {
        assert(reached(s, from, to, 3, t));
    } else if t[0] == z && t[1] == x {
        assert(reached(s, from, to, 4, t));
    } else {
        assert(t[0] == x && t[1] == z);
        assert(reached(s, from, to, 5, t));
    }
}

/// Windows of four or more: pick the block that moves the first element of `t` to the top,
/// then the order of the rest comes from the swaps on the smaller window.
proof fn lemma_visits_step<T>(s: Seq<T>, from: int, to: int, t: Seq<T>)
    requires
        0 <= from,
        to - from + 1 >= 4,
        to < s.len(),
        to <= usize::MAX,
        window(s, from, to).no_duplicates(),
        rearranges(t, window(s, from, to)),
    ensures
        exists|j: int| #[trigger] reached(s, from, to, j, t),
    decreases to - from, 1int,
{
    let w = window(s, from, to);
    let size = to - from + 1;
    let gp = gen_perm(from, to);
    assert(w.contains(t[0])) by {
        assert(t.contains(t[0]));
    }
    let i0 = choose|i: int| 0 <= i < w.len() && w[i] == t[0];
    let e = t[0];
    let A = blocks(from, to, i0);
    let U = swaps_up(from, i0);
    let G = gen_perm(from + 1, to);
    let D = swaps_down(from, i0);
    lemma_blocks_identity(s, from, to, i0);
    lemma_up_apply(s, from, i0);
    let s1 = apply_swaps(s, U);
    let w1 = window(s1, from + 1, to);
    // the rest of the window: the elements of w but e, in their order
    assert forall|k: int| 0 <= k < w1.len() implies #[trigger] w1[k] == if k < i0 { w[k] } else { w[k + 1] } by {
        assert(w1[k] == s1[from + 1 + k]);
    }
    assert(w1.no_duplicates()) by {
        assert forall|p: int, q: int| 0 <= p < w1.len() && 0 <= q < w1.len() && p != q implies w1[p] != w1[q] by {
            let pp = if p < i0 { p } else { p + 1 };
            let qq = if q < i0 { q } else { q + 1 };
            assert(w1[p] == w[pp] && w1[q] == w[qq]);
        }
    }
    let t1 = t.drop_first();
    assert(rearranges(t1, w1)) by {
        assert(t1.no_duplicates()) by {
            assert forall|p: int, q: int| 0 <= p < t1.len() && 0 <= q < t1.len() && p != q implies t1[p] != t1[q] by {
                assert(t1[p] == t[p + 1] && t1[q] == t[q + 1]);
            }
        }
        assert forall|x: T| t1.contains(x) <==> w1.contains(x) by {
            if t1.contains(x) {
                let p = choose|p: int| 0 <= p < t1.len() && t1[p] == x;
                assert(t[p + 1] == x);
                assert(t.contains(x));
                assert(w.contains(x));
                let q = choose|q: int| 0 <= q < w.len() && w[q] == x;
                assert(x != e) by {
                    assert(t[0] != t[p + 1]);
                }
                assert(q != i0);
                let k = if q < i0 { q } else { q - 1 };
                assert(w1[k] == x);
            }
            if w1.contains(x) {
                let k = choose|k: int| 0 <= k < w1.len() && w1[k] == x;
                let q = if k < i0 { k } else { k + 1 };
                assert(w[q] == x);
                assert(q != i0);
                assert(x != e) by {
                    assert(w[q] != w[i0]);
                }
                assert(w.contains(x));
                assert(t.contains(x));
                let p = choose|p: int| 0 <= p < t.len() && t[p] == x;
                assert(p != 0);
                assert(t1[p - 1] == x);
            }
        }
    }
    lemma_gen_perm_visits_all(s1, from + 1, to, t1);
    let j1 = choose|j: int| #[trigger] reached(s1, from + 1, to, j, t1);
    let Gt = G.take(j1);
    lemma_gen_perm_identity(s1, from + 1, to);
    lemma_adjacent_take(G, from + 1, to, j1);
    lemma_outside(s1, Gt, from + 1, to);
    let s2 = apply_swaps(s1, Gt);
    assert(window(s2, from, to) =~= t) by {
        assert(s2[from] == s1[from]);
        assert(window(s2, from + 1, to) == t1);
        assert forall|k: int| 1 <= k < size implies window(s2, from, to)[k] == t[k] by {
            assert(window(s2, from, to)[k] == window(s2, from + 1, to)[k - 1]);
        }
    }
    // the prefix A + U + Gt of the whole sequence
    lemma_apply_concat(s, A, U);
    lemma_apply_concat(s, A + U, Gt);
    assert(apply_swaps(s, A + U + Gt) == s2);
    lemma_blocks_prefix(from, to, i0 + 1, size);
    let B = blocks(from, to, i0 + 1);
    assert(B =~= A + U + G + D);
    assert(gp == blocks(from, to, size));
    let L = A.len() + U.len() + j1;
    assert(gp.take(L) =~= A + U + Gt) by {
        assert(gp.take(B.len() as int) == B);
        assert forall|k: int| 0 <= k < L implies gp.take(L)[k] == (A + U + Gt)[k] by {
            assert(gp[k] == gp.take(B.len() as int)[k]);
            assert(B[k] == (A + U + G + D)[k]);
        }
    }
    assert(reached(s, from, to, L, t));
}

} // verus!
