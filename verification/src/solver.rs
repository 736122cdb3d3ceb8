//! The search engine: depth-first exploration of the puzzle's state space,
//! with a visited set keyed by grid renderings.

use vstd::prelude::*;
use vstd::arithmetic::power::{pow, lemma_pow_positive};
use vstd::set_lib::{lemma_len_subset, lemma_int_range, set_int_range};
use crate::board::{
    Board, Car, PuzzleError, is_succ, solved_grid, succ_rec, gm_sound, emitted, render,
    slide_legal, slid_car, cars_ok, move_rec, lemma_slide_wf, lemma_succ_transfer,
};
use crate::fxset::{GridSet, grid_set_new, grid_set_insert, grid_set_contains, grid_set_view};

verus! {

/// `b` is reachable from `a` in exactly `n` legal slides.
pub open spec fn reach_n(a: Seq<Car>, b: Seq<Car>, n: nat) -> bool
    decreases n,
{
    if n == 0 {
        a == b
    } else {
        exists|m: Seq<Car>| #[trigger] is_succ(m, b) && reach_n(a, m, (n - 1) as nat)
    }
}

/// `b` is reachable from `a` by some sequence of legal slides.
pub open spec fn reachable(a: Seq<Car>, b: Seq<Car>) -> bool {
    exists|n: nat| #[trigger] reach_n(a, b, n)
}

/// Reachability is reflexive.
pub proof fn lemma_reach_refl(a: Seq<Car>)
    ensures
        reachable(a, a),
{
    assert(reach_n(a, a, 0));
}

/// Reachability extends by one legal slide.
pub proof fn lemma_reach_step(a: Seq<Car>, m: Seq<Car>, b: Seq<Car>)
    requires
        reachable(a, m),
        is_succ(m, b),
    ensures
        reachable(a, b),
{
    let n = choose|n: nat| reach_n(a, m, n);
    assert(reach_n(a, b, n + 1)) by {
        assert(is_succ(m, b) && reach_n(a, m, ((n + 1) - 1) as nat));
    }
}

/// The base-256 value of a byte sequence, low byte first: an injective key
/// for grid renderings, used to bound how often the visited set can grow.
pub open spec fn seq_key(s: Seq<u8>) -> int
    decreases s.len(),
{
    if s.len() == 0 {
        0
    } else {
        s[0] + 256 * seq_key(s.drop_first())
    }
}

/// A rendering's key lies below 256 to the power of its length.
proof fn lemma_seq_key_bound(s: Seq<u8>)
    ensures
        0 <= seq_key(s) < pow(256, s.len()),
    decreases s.len(),
{
    if s.len() == 0 {
        vstd::arithmetic::power::lemma_pow0(256);
    } else {
        lemma_seq_key_bound(s.drop_first());
        assert(pow(256, s.len()) == 256 * pow(256, (s.len() - 1) as nat)) by {
            vstd::arithmetic::power::lemma_pow1(256);
            vstd::arithmetic::power::lemma_pow_adds(256, 1, (s.len() - 1) as nat);
            assert(1 + (s.len() - 1) as nat == s.len());
        }
    }
}

/// Equal keys of equal-length byte sequences mean equal sequences.
proof fn lemma_seq_key_inj(s1: Seq<u8>, s2: Seq<u8>)
    requires
        s1.len() == s2.len(),
        seq_key(s1) == seq_key(s2),
    ensures
        s1 == s2,
    decreases s1.len(),
{
    if s1.len() == 0 {
        assert(s1 =~= s2);
    } else {
        let k1 = seq_key(s1.drop_first());
        let k2 = seq_key(s2.drop_first());
        assert(s1[0] + 256 * k1 == s2[0] + 256 * k2);
        assert(s1[0] == s2[0] && k1 == k2) by {
            assert(-256 < s1[0] - s2[0] < 256);
        }
        lemma_seq_key_inj(s1.drop_first(), s2.drop_first());
        assert(s1 =~= s2) by {
            assert forall|i: int| 0 <= i < s1.len() implies s1[i] == s2[i] by {
                if i > 0 {
                    assert(s1.drop_first()[i - 1] == s2.drop_first()[i - 1]);
                }
            }
        }
    }
}

/// The keys of a set of renderings.
pub open spec fn grid_keys(vs: Set<Seq<u8>>) -> Set<int> {
    Set::new(|x: int| exists|s: Seq<u8>| #[trigger] vs.contains(s) && x == seq_key(s))
}

/// An upper bound on how many distinct 36-cell renderings exist.
pub open spec fn n_grids() -> int {
    pow(256, 36)
}

/// Visited-set bookkeeping: every member is a 36-cell rendering, so the
/// set's key image is finite and bounded, which bounds the search.
spec fn visited_inv(vs: Set<Seq<u8>>) -> bool {
    &&& forall|s: Seq<u8>| #[trigger] vs.contains(s) ==> s.len() == 36
    &&& grid_keys(vs).subset_of(set_int_range(0, n_grids()))
    &&& grid_keys(vs).finite()
    &&& grid_keys(vs).len() <= n_grids()
}

/// An empty visited set satisfies its bookkeeping.
proof fn lemma_visited_empty()
    ensures
        visited_inv(Set::<Seq<u8>>::empty()),
{
    let vs = Set::<Seq<u8>>::empty();
    assert(grid_keys(vs) =~= Set::<int>::empty());
    lemma_pow_positive(256, 36);
    lemma_int_range(0, n_grids());
}

/// Inserting a rendering the set lacks grows its key image by exactly one,
/// and the image stays within its fixed finite bound.
proof fn lemma_visited_insert(vs: Set<Seq<u8>>, g: Seq<u8>)
    requires
        visited_inv(vs),
        g.len() == 36,
        !vs.contains(g),
    ensures
        visited_inv(vs.insert(g)),
        vs.insert(g).contains(g),
        grid_keys(vs).len() < grid_keys(vs.insert(g)).len() <= n_grids(),
{
    let key = seq_key(g);
    lemma_seq_key_bound(g);
    assert(!grid_keys(vs).contains(key)) by {
        if grid_keys(vs).contains(key) {
            let s = choose|s: Seq<u8>| #[trigger] vs.contains(s) && key == seq_key(s);
            lemma_seq_key_inj(s, g);
        }
    }
    assert(grid_keys(vs.insert(g)) =~= grid_keys(vs).insert(key)) by {
        assert forall|x: int| grid_keys(vs.insert(g)).contains(x) implies grid_keys(vs).insert(
            key,
        ).contains(x) by {
            let s = choose|s: Seq<u8>| #[trigger] vs.insert(g).contains(s) && x == seq_key(s);
            if s == g {
            } else {
                assert(vs.contains(s));
            }
        }
        assert forall|x: int| grid_keys(vs).insert(key).contains(x) implies grid_keys(
            vs.insert(g),
        ).contains(x) by {
            if x == key {
                assert(vs.insert(g).contains(g));
            } else {
                let s = choose|s: Seq<u8>| #[trigger] vs.contains(s) && x == seq_key(s);
                assert(vs.insert(g).contains(s));
            }
        }
    }
    assert(grid_keys(vs.insert(g)).len() == grid_keys(vs).len() + 1);
    lemma_pow_positive(256, 36);
    lemma_int_range(0, n_grids());
    assert(grid_keys(vs.insert(g)).subset_of(set_int_range(0, n_grids())));
    lemma_len_subset(grid_keys(vs.insert(g)), set_int_range(0, n_grids()));
}

/// One rendering follows another by a legal slide: some well-formed vehicle
/// list renders the first and slides one car into a list rendering the
/// second.
pub open spec fn grid_succ(g: Seq<u8>, g2: Seq<u8>) -> bool {
    exists|cs: Seq<Car>, cs2: Seq<Car>|
        {
            &&& cars_ok(cs)
            &&& render(cs) == g
            &&& #[trigger] is_succ(cs, cs2)
            &&& render(cs2) == g2
        }
}

/// Every rendering one slide away from `g` already lies in the set.
pub open spec fn succs_closed(vs: Set<Seq<u8>>, g: Seq<u8>) -> bool {
    forall|g2: Seq<u8>| #[trigger] grid_succ(g, g2) ==> vs.contains(g2)
}

/// Some board on the stack renders as `g`.
pub open spec fn stack_has(st: Seq<Board>, g: Seq<u8>) -> bool {
    exists|j: int| 0 <= j < st.len() && (#[trigger] st[j]).array@ == g
}

/// Walking any path of legal slides from a state whose rendering lies in a
/// successor-closed set never leaves the set.
proof fn lemma_closed_reach(vs: Set<Seq<u8>>, a: Seq<Car>, b: Seq<Car>, n: nat)
    requires
        cars_ok(a),
        vs.contains(render(a)),
        forall|g: Seq<u8>| #[trigger] vs.contains(g) ==> succs_closed(vs, g),
        reach_n(a, b, n),
    ensures
        cars_ok(b),
        vs.contains(render(b)),
    decreases n,
{
    if n != 0 {
        let m = choose|m: Seq<Car>| #[trigger] is_succ(m, b) && reach_n(a, m, (n - 1) as nat);
        lemma_closed_reach(vs, a, m, (n - 1) as nat);
        let (i, delta) = choose|i: int, delta: int|
            {
                &&& 0 <= i < m.len()
                &&& #[trigger] slide_legal(render(m), m[i], delta)
                &&& b == m.update(i, slid_car(m[i], delta))
            };
        lemma_slide_wf(m, i, delta);
        assert(grid_succ(render(m), render(b)));
        assert(succs_closed(vs, render(m)));
    }
}

/// Popping the top of the stack leaves every visited rendering accounted
/// for: it is the popped board's, still on the stack, or already closed.
proof fn lemma_pop_redistribute(
    vs: Set<Seq<u8>>,
    stack_before: Seq<Board>,
    stack_after: Seq<Board>,
    b: Board,
)
    requires
        stack_before.len() > 0,
        b == stack_before.last(),
        stack_after == stack_before.subrange(0, stack_before.len() - 1),
        forall|g: Seq<u8>|
            #[trigger] vs.contains(g) ==> stack_has(stack_before, g) || succs_closed(vs, g),
    ensures
        forall|g: Seq<u8>|
            #[trigger] vs.contains(g) ==> g == b.array@ || stack_has(stack_after, g)
                || succs_closed(vs, g),
{
    assert forall|g: Seq<u8>| #[trigger] vs.contains(g) implies g == b.array@ || stack_has(
        stack_after,
        g,
    ) || succs_closed(vs, g) by {
        if stack_has(stack_before, g) && g != b.array@ {
            let j = choose|j: int|
                0 <= j < stack_before.len() && (#[trigger] stack_before[j]).array@ == g;
            assert(j < stack_after.len());
            assert(stack_after[j].array@ == g);
        }
    }
}

/// Recording one fresh, unsolved successor preserves the search's working
/// invariants: nothing solved is remembered, and every remembered rendering
/// is the expanded one, on the stack, or closed.
proof fn lemma_insert_push(
    vs_before: Set<Seq<u8>>,
    vs_after: Set<Seq<u8>>,
    stack_before: Seq<Board>,
    stack_after: Seq<Board>,
    b: Board,
    sb: Board,
)
    requires
        vs_after == vs_before.insert(sb.array@),
        stack_after == stack_before.push(sb),
        !solved_grid(sb.array@),
        forall|g: Seq<u8>| #[trigger] vs_before.contains(g) ==> !solved_grid(g),
        forall|g: Seq<u8>|
            #[trigger] vs_before.contains(g) ==> g == b.array@ || stack_has(stack_before, g)
                || succs_closed(vs_before, g),
    ensures
        forall|g: Seq<u8>| #[trigger] vs_after.contains(g) ==> !solved_grid(g),
        forall|g: Seq<u8>|
            #[trigger] vs_after.contains(g) ==> g == b.array@ || stack_has(stack_after, g)
                || succs_closed(vs_after, g),
{
    assert forall|g: Seq<u8>| #[trigger] vs_after.contains(g) implies g == b.array@ || stack_has(
        stack_after,
        g,
    ) || succs_closed(vs_after, g) by {
        if g == sb.array@ {
            assert(stack_after[stack_after.len() - 1].array@ == g);
            assert(stack_has(stack_after, g));
        } else {
            assert(vs_before.contains(g));
            if stack_has(stack_before, g) {
                let j = choose|j: int|
                    0 <= j < stack_before.len() && (#[trigger] stack_before[j]).array@ == g;
                assert(stack_after[j].array@ == g);
                assert(stack_has(stack_after, g));
            } else if succs_closed(vs_before, g) {
                assert forall|g2: Seq<u8>| #[trigger] grid_succ(g, g2) implies vs_after.contains(
                    g2,
                ) by {
                    assert(vs_before.contains(g2));
                }
            }
        }
    }
}

/// Once every generated successor of an expanded board is remembered, every
/// rendering one slide away from it is remembered too — whichever vehicle
/// list renders that state.
proof fn lemma_expansion_closes(b: Board, succs: Seq<Board>, vs: Set<Seq<u8>>)
    requires
        b.wf(),
        gm_sound(b, succs),
        crate::board::gm_complete_upto(b, succs, b.cars@.len() as int),
        forall|j: int| 0 <= j < succs.len() ==> vs.contains((#[trigger] succs[j]).array@),
    ensures
        succs_closed(vs, b.array@),
{
    assert forall|g2: Seq<u8>| #[trigger] grid_succ(b.array@, g2) implies vs.contains(g2) by {
        let (cs, cs2) = choose|cs: Seq<Car>, cs2: Seq<Car>|
            {
                &&& cars_ok(cs)
                &&& render(cs) == b.array@
                &&& #[trigger] is_succ(cs, cs2)
                &&& render(cs2) == g2
            };
        assert(render(cs) == render(b.cars@));
        lemma_succ_transfer(cs, b.cars@, cs2);
        let csn = choose|csn: Seq<Car>| #[trigger] is_succ(b.cars@, csn) && render(csn) == render(
            cs2,
        );
        let (i, delta) = choose|i: int, delta: int|
            {
                &&& 0 <= i < b.cars@.len()
                &&& #[trigger] slide_legal(render(b.cars@), b.cars@[i], delta)
                &&& csn == b.cars@.update(i, slid_car(b.cars@[i], delta))
            };
        assert(slide_legal(b.array@, b.cars@[i], delta));
        assert(emitted(b, succs, i, delta));
        let sj = choose|sj: int|
            0 <= sj < succs.len() && (#[trigger] succs[sj]).cars@ == b.cars@.update(
                i,
                slid_car(b.cars@[i], delta),
            );
        assert(succs[sj].wf());
        assert(succs[sj].array@ == render(succs[sj].cars@));
        assert(succs[sj].cars@ == csn);
        assert(succs[sj].array@ == g2);
    }
}

/// When the frontier empties, nothing reachable from the initial state is
/// solved: the visited set contains the initial rendering, is closed under
/// successors, and holds no solved rendering.
proof fn lemma_exhausted(vs: Set<Seq<u8>>, init: Seq<Car>)
    requires
        cars_ok(init),
        vs.contains(render(init)),
        forall|g: Seq<u8>| #[trigger] vs.contains(g) ==> !solved_grid(g),
        forall|g: Seq<u8>| #[trigger] vs.contains(g) ==> succs_closed(vs, g),
    ensures
        forall|cs: Seq<Car>| #[trigger] reachable(init, cs) ==> !solved_grid(render(cs)),
{
    assert forall|cs: Seq<Car>| #[trigger] reachable(init, cs) implies !solved_grid(
        render(cs),
    ) by {
        let n = choose|n: nat| #[trigger] reach_n(init, cs, n);
        lemma_closed_reach(vs, init, cs, n);
        assert(vs.contains(render(cs)));
    }
}

/// The trail `ms` records, in order, one legal slide per entry, leading
/// from the vehicle list `a` to the vehicle list `b`.
pub open spec fn trail(a: Seq<Car>, b: Seq<Car>, ms: Seq<[u8; 3]>) -> bool
    decreases ms.len(),
{
    if ms.len() == 0 {
        a == b
    } else {
        exists|m: Seq<Car>, i: int, delta: int|
            {
                &&& trail(a, m, ms.drop_last())
                &&& 0 <= i < m.len()
                &&& #[trigger] slide_legal(render(m), m[i], delta)
                &&& b == m.update(i, slid_car(m[i], delta))
                &&& ms.last()@ == move_rec(m[i], delta)
            }
    }
}

/// The board's move trail extends `base` by records of the slides that lead
/// from `init` to the board's own vehicle list.
pub open spec fn trail_from(init: Seq<Car>, base: Seq<[u8; 3]>, b: Board) -> bool {
    &&& b.moves@.len() >= base.len()
    &&& b.moves@.take(base.len() as int) == base
    &&& trail(init, b.cars@, b.moves@.skip(base.len() as int))
}

/// A trail grows by one recorded slide.
proof fn lemma_trail_step(
    a: Seq<Car>,
    m: Seq<Car>,
    b: Seq<Car>,
    ms: Seq<[u8; 3]>,
    i: int,
    delta: int,
    rec: [u8; 3],
)
    requires
        trail(a, m, ms),
        0 <= i < m.len(),
        slide_legal(render(m), m[i], delta),
        b == m.update(i, slid_car(m[i], delta)),
        rec@ == move_rec(m[i], delta),
    ensures
        trail(a, b, ms.push(rec)),
{
    assert(ms.push(rec).drop_last() =~= ms);
    assert(ms.push(rec).last() == rec);
}

/// The search loop proper: pops a state, generates its successors, returns
/// the first solved one, and records the rest, until the frontier empties.
/// Runs on a frontier and visited set that a caller has seeded.
fn dfs_work(
    Ghost(init): Ghost<Seq<Car>>,
    Ghost(base): Ghost<Seq<[u8; 3]>>,
    mut visited: GridSet,
    mut stack: Vec<Board>,
) -> (r: Result<Board, PuzzleError>)
    requires
        cars_ok(init),
        forall|j: int| 0 <= j < stack@.len() ==> (#[trigger] stack@[j]).wf(),
        forall|j: int| 0 <= j < stack@.len() ==> reachable(init, (#[trigger] stack@[j]).cars@),
        forall|j: int| 0 <= j < stack@.len() ==> trail_from(init, base, #[trigger] stack@[j]),
        visited_inv(grid_set_view(visited)),
        grid_set_view(visited).contains(render(init)),
        forall|g: Seq<u8>| #[trigger] grid_set_view(visited).contains(g) ==> !solved_grid(g),
        forall|g: Seq<u8>|
            #[trigger] grid_set_view(visited).contains(g) ==> stack_has(stack@, g)
                || succs_closed(grid_set_view(visited), g),
    ensures
        r matches Ok(b) ==> b.wf() && solved_grid(b.array@) && reachable(init, b.cars@)
            && trail_from(init, base, b),
        r is Err ==> forall|cs: Seq<Car>|
            #[trigger] reachable(init, cs) ==> !solved_grid(render(cs)),
{
    loop
        invariant
            cars_ok(init),
            forall|j: int| 0 <= j < stack@.len() ==> (#[trigger] stack@[j]).wf(),
            forall|j: int|
                0 <= j < stack@.len() ==> reachable(init, (#[trigger] stack@[j]).cars@),
            forall|j: int| 0 <= j < stack@.len() ==> trail_from(init, base, #[trigger] stack@[j]),
            visited_inv(grid_set_view(visited)),
            grid_set_view(visited).contains(render(init)),
            forall|g: Seq<u8>| #[trigger] grid_set_view(visited).contains(g) ==> !solved_grid(g),
            forall|g: Seq<u8>|
                #[trigger] grid_set_view(visited).contains(g) ==> stack_has(stack@, g)
                    || succs_closed(grid_set_view(visited), g),
        decreases n_grids() - grid_keys(grid_set_view(visited)).len(), stack@.len(),
    {
        let ghost stack_before_pop = stack@;
        let b = match stack.pop() {
            Some(b) => b,
            None => {
                proof {
                    assert forall|g: Seq<u8>|
                        #[trigger] grid_set_view(visited).contains(g) implies succs_closed(
                        grid_set_view(visited),
                        g,
                    ) by {
                        assert(!stack_has(stack@, g)) by {
                            if stack_has(stack@, g) {
                                let j = choose|j: int|
                                    0 <= j < stack@.len() && (#[trigger] stack@[j]).array@ == g;
                            }
                        }
                    }
                    lemma_exhausted(grid_set_view(visited), init);
                }
                return Err(PuzzleError::NoSolution);
            },
        };
        proof {
            lemma_pop_redistribute(grid_set_view(visited), stack_before_pop, stack@, b);
        }
        let succs = b.get_moves();
        let ghost keys_entry = grid_keys(grid_set_view(visited));
        let ghost stack_entry = stack@;
        for si in 0..succs.len()
            invariant
                cars_ok(init),
                b.wf(),
                reachable(init, b.cars@),
                trail_from(init, base, b),
                gm_sound(b, succs@),
                forall|j: int| 0 <= j < stack@.len() ==> (#[trigger] stack@[j]).wf(),
                forall|j: int|
                    0 <= j < stack@.len() ==> reachable(init, (#[trigger] stack@[j]).cars@),
                forall|j: int|
                    0 <= j < stack@.len() ==> trail_from(init, base, #[trigger] stack@[j]),
                visited_inv(grid_set_view(visited)),
                grid_set_view(visited).contains(render(init)),
                forall|g: Seq<u8>|
                    #[trigger] grid_set_view(visited).contains(g) ==> !solved_grid(g),
                forall|g: Seq<u8>|
                    #[trigger] grid_set_view(visited).contains(g) ==> g == b.array@ || stack_has(
                        stack@,
                        g,
                    ) || succs_closed(grid_set_view(visited), g),
                forall|j: int|
                    0 <= j < si ==> grid_set_view(visited).contains((#[trigger] succs@[j]).array@),
                keys_entry.len() <= grid_keys(grid_set_view(visited)).len(),
                (grid_keys(grid_set_view(visited)) == keys_entry && stack@ == stack_entry)
                    || keys_entry.len() < grid_keys(grid_set_view(visited)).len(),
        {
            let sb = succs[si].clone();
            proof {
                assert(succs@[si as int].wf());
                assert(sb.wf());
                let (i, delta) = choose|i: int, delta: int|
                    #[trigger] succ_rec(b, succs@[si as int], i, delta);
                assert(slide_legal(b.array@, b.cars@[i], delta));
                assert(render(b.cars@) == b.array@);
                assert(slide_legal(render(b.cars@), b.cars@[i], delta));
                assert(sb.cars@ == b.cars@.update(i, slid_car(b.cars@[i], delta)));
                assert(is_succ(b.cars@, sb.cars@));
                lemma_reach_step(init, b.cars@, sb.cars@);
                assert(trail_from(init, base, sb)) by {
                    let rec = sb.moves@.last();
                    assert(sb.moves@ =~= b.moves@.push(rec)) by {
                        assert forall|t: int| 0 <= t < b.moves@.len() implies sb.moves@[t]
                            == b.moves@[t] by {
                            assert(sb.moves@.take(b.moves@.len() as int)[t] == sb.moves@[t]);
                        }
                    }
                    assert(sb.moves@.take(base.len() as int) =~= base) by {
                        assert forall|t: int| 0 <= t < base.len() implies sb.moves@[t]
                            == base[t] by {
                            assert(b.moves@.take(base.len() as int)[t] == b.moves@[t]);
                        }
                    }
                    assert(sb.moves@.skip(base.len() as int) =~= b.moves@.skip(
                        base.len() as int,
                    ).push(rec));
                    assert(rec@ == move_rec(b.cars@[i], delta)) by {
                        assert(sb.moves@.last() == rec);
                    }
                    lemma_trail_step(
                        init,
                        b.cars@,
                        sb.cars@,
                        b.moves@.skip(base.len() as int),
                        i,
                        delta,
                        rec,
                    );
                }
            }
            if sb.is_solved() {
                return Ok(sb);
            }
            if !grid_set_contains(&visited, &sb.array) {
                let ghost vs_before = grid_set_view(visited);
                let ghost stack_before = stack@;
                let ghost sb_snapshot = sb;
                proof {
                    lemma_visited_insert(vs_before, sb.array@);
                }
                grid_set_insert(&mut visited, &sb.array);
                stack.push(sb);
                proof {
                    lemma_insert_push(
                        vs_before,
                        grid_set_view(visited),
                        stack_before,
                        stack@,
                        b,
                        sb_snapshot,
                    );
                }
            }
        }
        proof {
            lemma_expansion_closes(b, succs@, grid_set_view(visited));
        }
    }
}

/// Depth-first search: explores the state space from `board`, deduplicating
/// states by rendering, and returns the first winning state found, or
/// `NoSolution` once every reachable state has been expanded. A returned
/// state is always well formed, solved, and reachable from `board` by legal
/// slides; `NoSolution` comes back only when no reachable state at all is
/// solved; and the search always terminates, because the visited set grows
/// within a finite space of renderings.
pub fn dfs(board: Board) -> (r: Result<Board, PuzzleError>)
    requires
        board.wf(),
    ensures
        r matches Ok(b) ==> b.wf() && solved_grid(b.array@) && reachable(board.cars@, b.cars@)
            && trail_from(board.cars@, board.moves@, b),
        r is Err ==> forall|cs: Seq<Car>|
            #[trigger] reachable(board.cars@, cs) ==> !solved_grid(render(cs)),
        solved_grid(board.array@) ==> r == Ok::<Board, PuzzleError>(board),
{
    let ghost init: Seq<Car> = board.cars@;
    let ghost base: Seq<[u8; 3]> = board.moves@;
    proof {
        lemma_reach_refl(init);
        assert(trail_from(init, base, board)) by {
            assert(board.moves@.take(base.len() as int) =~= base);
            assert(board.moves@.skip(base.len() as int) =~= Seq::<[u8; 3]>::empty());
        }
    }
    if board.is_solved() {
        return Ok(board);
    }
    let mut visited: GridSet = grid_set_new();
    proof {
        lemma_visited_empty();
        lemma_visited_insert(Set::<Seq<u8>>::empty(), board.array@);
    }
    grid_set_insert(&mut visited, &board.array);
    let mut stack: Vec<Board> = Vec::new();
    stack.push(board);
    proof {
        assert(board.array@ == render(init));
        assert(stack_has(stack@, board.array@)) by {
            assert(stack@[0].array@ == board.array@);
        }
        assert forall|g: Seq<u8>|
            #[trigger] grid_set_view(visited).contains(g) implies !solved_grid(g) && stack_has(
            stack@,
            g,
        ) by {
            assert(g == board.array@);
        }
    }
    dfs_work(Ghost(init), Ghost(base), visited, stack)
}

/// Solves the same board 100 times over, for benchmarking.
pub fn stress_solve(board: Board)
    requires
        board.wf(),
{
    let mut count: usize = 0;
    while count < 100
        invariant
            board.wf(),
        decreases 100 - count,
    {
        let b = board.clone();
        let _ = dfs(b);
        count = count + 1;
    }
}

} // verus!
