//! The order of the vertices around a mesh's single boundary loop, as the
//! disk parameterization pins them to the circle: from the lowest boundary
//! vertex, following each vertex's successor until back at the start.
use vstd::prelude::*;

verus! {

/// The `[predecessor, successor]` pair listed for vertex `v`, if any.
pub open spec fn neighbours_of(loops: Seq<(usize, [usize; 2])>, v: usize) -> Option<[usize; 2]>
    decreases loops.len(),
{
    if loops.len() == 0 {
        None
    } else if loops[0].0 == v {
        Some(loops[0].1)
    } else {
        neighbours_of(loops.drop_first(), v)
    }
}

/// The vertices met from `next` on, following successors, up to the one
/// whose successor is `first`; none where a vertex met has no entry, or
/// the walk is not back within `fuel` steps.
pub open spec fn walk_to(loops: Seq<(usize, [usize; 2])>, first: usize, next: usize, fuel: nat) -> Option<
    Seq<usize>,
>
    decreases fuel,
{
    if fuel == 0 {
        None
    } else {
        match neighbours_of(loops, next) {
            None => None,
            Some(s) => if s[1] == first {
                Some(seq![next])
            } else {
                match walk_to(loops, first, s[1], (fuel - 1) as nat) {
                    Some(t) => Some(seq![next] + t),
                    None => None,
                }
            },
        }
    }
}

proof fn lemma_walk_more_fuel(loops: Seq<(usize, [usize; 2])>, first: usize, next: usize, a: nat, b: nat)
    requires
        walk_to(loops, first, next, a) is Some,
        a <= b,
    ensures
        walk_to(loops, first, next, b) == walk_to(loops, first, next, a),
    decreases a,
{
    let s = neighbours_of(loops, next).unwrap();
    if s[1] != first {
        lemma_walk_more_fuel(loops, first, s[1], (a - 1) as nat, (b - 1) as nat);
    }
}

proof fn lemma_walk_len(loops: Seq<(usize, [usize; 2])>, first: usize, next: usize, a: nat)
    requires
        walk_to(loops, first, next, a) is Some,
    ensures
        walk_to(loops, first, next, a).unwrap().len() <= a,
    decreases a,
{
    let s = neighbours_of(loops, next).unwrap();
    if s[1] != first {
        lemma_walk_len(loops, first, s[1], (a - 1) as nat);
    }
}

proof fn lemma_walk_suffix(loops: Seq<(usize, [usize; 2])>, first: usize, next: usize, a: nat, i: int)
    requires
        walk_to(loops, first, next, a) is Some,
        0 <= i < walk_to(loops, first, next, a).unwrap().len(),
    ensures
        walk_to(loops, first, walk_to(loops, first, next, a).unwrap()[i], (a - i) as nat) == Some(
            walk_to(loops, first, next, a).unwrap().skip(i),
        ),
    decreases a,
{
    let t = walk_to(loops, first, next, a).unwrap();
    if i == 0 {
        assert(t.skip(0) =~= t);
    } else {
        let s = neighbours_of(loops, next).unwrap();
        let u = walk_to(loops, first, s[1], (a - 1) as nat).unwrap();
        assert(t == seq![next] + u);
        lemma_walk_suffix(loops, first, s[1], (a - 1) as nat, i - 1);
        assert(t[i] == u[i - 1]);
        assert(t.skip(i) =~= u.skip(i - 1));
    }
}

/// A walk along successors that gets back to the start meets no vertex
/// twice on the way: where it met one again, it would go round the same
/// way again and never get back.
pub proof fn lemma_walk_visits_once(loops: Seq<(usize, [usize; 2])>, first: usize, next: usize, fuel: nat)
    requires
        walk_to(loops, first, next, fuel) is Some,
    ensures
        walk_to(loops, first, next, fuel).unwrap().no_duplicates(),
{
    let t = walk_to(loops, first, next, fuel).unwrap();
    assert forall|i: int, j: int| 0 <= i < t.len() && 0 <= j < t.len() && i != j implies t[i] != t[j] by {
        if t[i] == t[j] {
            let (p, q) = if i < j {
                (i, j)
            } else {
                (j, i)
            };
            lemma_walk_len(loops, first, next, fuel);
            lemma_walk_suffix(loops, first, next, fuel, p);
            lemma_walk_suffix(loops, first, next, fuel, q);
            lemma_walk_more_fuel(loops, first, t[q], (fuel - q) as nat, (fuel - p) as nat);
            assert(t.skip(p).len() != t.skip(q).len());
        }
    }
}

fn find_neighbours(loops: &Vec<(usize, [usize; 2])>, v: usize) -> (r: Option<[usize; 2]>)
    ensures
        r == neighbours_of(loops@, v),
{
    let mut i: usize = 0;
    assert(loops@.skip(0) =~= loops@);
    while i < loops.len()
        invariant
            i <= loops@.len(),
            neighbours_of(loops@, v) == neighbours_of(loops@.skip(i as int), v),
        decreases loops@.len() - i,
    {
        assert(loops@.skip(i as int)[0] == loops@[i as int]);
        if loops[i].0 == v {
            return Some(loops[i].1);
        }
        assert(loops@.skip(i as int).drop_first() =~= loops@.skip(i + 1));
        i = i + 1;
    }
    None
}

/// The boundary vertices in the order of the loop: the first listed (the
/// lowest, as a map keyed by vertex lists them), then its successor, and so
/// on, up to the vertex whose successor is the first. `loops` lists each
/// boundary vertex with its predecessor and successor; no vertex after the
/// first is met twice. None where the walk meets a vertex without an entry, or is
/// not back at the start within as many steps as there are entries.
pub fn loop_order(loops: &Vec<(usize, [usize; 2])>) -> (r: Option<Vec<usize>>)
    requires
        loops@.len() > 0,
    ensures
        match r {
            Some(o) => walk_to(loops@, loops@[0].0, loops@[0].1[1], loops@.len()) == Some(
                o@.drop_first(),
            ) && o@.len() > 0 && o@[0] == loops@[0].0 && o@.drop_first().no_duplicates(),
            None => walk_to(loops@, loops@[0].0, loops@[0].1[1], loops@.len()) is None,
        },
{
    let first = loops[0].0;
    let mut next = loops[0].1[1];
    let mut order: Vec<usize> = Vec::new();
    order.push(first);
    let mut fuel: usize = loops.len();
    let ghost total = walk_to(loops@, first, next, fuel as nat);
    loop
        invariant
            first == loops@[0].0,
            order@.len() > 0,
            order@[0] == first,
            total == walk_to(loops@, first, loops@[0].1[1], loops@.len() as nat),
            total == match walk_to(loops@, first, next, fuel as nat) {
                Some(t) => Some(order@.drop_first() + t),
                None => None::<Seq<usize>>,
            },
        decreases fuel,
    {
        if fuel == 0 {
            return None;
        }
        let s = match find_neighbours(loops, next) {
            Some(s) => s,
            None => {
                return None;
            },
        };
        let ghost before = order@;
        order.push(next);
        assert(order@.drop_first() =~= before.drop_first() + seq![next]);
        if s[1] == first {
            proof {
                lemma_walk_visits_once(loops@, first, loops@[0].1[1], loops@.len() as nat);
            }
            return Some(order);
        }
        proof {
            if let Some(t) = walk_to(loops@, first, s[1], (fuel - 1) as nat) {
                assert(before.drop_first() + (seq![next] + t) =~= order@.drop_first() + t);
            }
        }
        next = s[1];
        fuel = fuel - 1;
    }
}

} // verus!
