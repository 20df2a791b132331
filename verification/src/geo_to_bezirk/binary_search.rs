use vstd::prelude::*;
use vstd::arithmetic::power2::pow2;

use crate::bezirk::Bezirk;
use super::{answers, answers2, decides};
use super::naive_linear::{last_match_at, last_match_post, lemma_linear_answer_unique, linear_answer};

verus! {

/// The square at recursion depth `depth` is halved left/right (`split_x`)
/// when the depth is even and top/bottom (`split_y`) when it is odd.
pub open spec fn splits_horizontally(depth: nat) -> bool {
    depth % 2 == 0
}

/// The paths to the chunks of a subdivision `n` levels deep, in the order in
/// which the chunks are produced: each path says, level by level, whether the
/// second half (`true`) or the first half (`false`) was taken. All first-half
/// chunks come before all second-half chunks.
pub open spec fn leaf_paths(n: nat) -> Seq<Seq<bool>>
    decreases n,
{
    if n == 0 {
        seq![Seq::<bool>::empty()]
    } else {
        let sub = leaf_paths((n - 1) as nat);
        sub.map_values(|p: Seq<bool>| seq![false] + p) + sub.map_values(|p: Seq<bool>| seq![true] + p)
    }
}

/// A subdivision `n` levels deep has `2^n` chunks, each reached by a path of
/// `n` steps.
pub proof fn lemma_leaf_paths(n: nat)
    ensures
        leaf_paths(n).len() == pow2(n),
        forall|k: int| 0 <= k < leaf_paths(n).len() ==> (#[trigger] leaf_paths(n)[k]).len() == n,
    decreases n,
{
    if n == 0 {
        assert(pow2(0) == 1) by {
            vstd::arithmetic::power2::lemma2_to64();
        }
    } else {
        vstd::arithmetic::power2::lemma_pow2_unfold(n);
        lemma_leaf_paths((n - 1) as nat);
    }
}

/// The path to chunk `k` spells `k` in binary, most significant level first:
/// at level `t` the second half is taken exactly when bit `n - 1 - t` of `k`
/// is set.
pub proof fn lemma_leaf_path_bits(n: nat, k: int, t: int)
    requires
        0 <= k < pow2(n),
        0 <= t < n,
    ensures
        leaf_paths(n)[k][t] == ((k / (pow2((n - 1 - t) as nat) as int)) % 2 == 1),
    decreases n,
{
    let m = (n - 1) as nat;
    let sub = leaf_paths(m);
    lemma_leaf_paths(n);
    lemma_leaf_paths(m);
    vstd::arithmetic::power2::lemma_pow2_unfold(n);
    vstd::arithmetic::power2::lemma_pow2_pos(m);
    let h = pow2(m) as int;
    let e = (n - 1 - t) as nat;
    let d = pow2(e) as int;
    vstd::arithmetic::power2::lemma_pow2_pos(e);
    let paths = leaf_paths(n);
    assert(paths == sub.map_values(|p: Seq<bool>| seq![false] + p) + sub.map_values(|p: Seq<bool>| seq![true] + p));
    if k < h {
        let p = sub[k];
        assert(paths[k] == seq![false] + p);
        if t == 0 {
            vstd::arithmetic::div_mod::lemma_basic_div(k, h);
        } else {
            lemma_leaf_path_bits(m, k, t - 1);
            assert(paths[k][t] == p[t - 1]);
        }
    } else {
        let k2 = k - h;
        let p = sub[k2];
        assert(paths[k] == seq![true] + p);
        if t == 0 {
            vstd::arithmetic::div_mod::lemma_basic_div(k2, h);
            vstd::arithmetic::div_mod::lemma_hoist_over_denominator(k2, 1, h as nat);
        } else {
            lemma_leaf_path_bits(m, k2, t - 1);
            assert(paths[k][t] == p[t - 1]);
            let tt = t as nat;
            vstd::arithmetic::power2::lemma_pow2_adds(e, tt);
            assert(e + tt == m);
            let q = pow2(tt) as int;
            assert(h == d * q);
            assert(k == k2 + q * d) by (nonlinear_arith)
                requires
                    h == d * q,
                    k == k2 + h,
            ;
            vstd::arithmetic::div_mod::lemma_hoist_over_denominator(k2, q, d as nat);
            vstd::arithmetic::power2::lemma_pow2_unfold(tt);
            let half = pow2((tt - 1) as nat) as int;
            vstd::arithmetic::div_mod::lemma_mod_multiples_vanish(half, k2 / d, 2);
            assert(k / d == 2 * half + k2 / d);
        }
    }
}

/// The number of halvings still to come below depth `i` when subdividing down
/// to depth `limit`: none once the depth has reached (or passed) the limit.
pub open spec fn levels_below(i: usize, limit: usize) -> nat {
    if i >= limit { 0 } else { (limit - i) as nat }
}

/// Following `path` from `square` at depth `depth`, halving it with `split`
/// at each level, may end at `rect`.
pub open spec fn reached<R, S: Fn(&R, bool) -> (R, R)>(
    split: S,
    square: R,
    depth: nat,
    path: Seq<bool>,
    rect: R,
) -> bool
    decreases path.len(),
{
    if path.len() == 0 {
        rect == square
    } else {
        exists|halves: (R, R)|
            #[trigger] split.ensures((&square, splits_horizontally(depth)), halves) && reached(
                split,
                if path[0] { halves.1 } else { halves.0 },
                depth + 1,
                path.drop_first(),
                rect,
            )
    }
}

/// `rects` is a chain of rectangles from `square` to `rect` in which step `t`
/// halves `rects[t]` into `halves[t]`, with the flag `(depth + t) % 2 == 0`
/// (left/right at even depth, top/bottom at odd depth), and keeps the half
/// that `path[t]` names (`true`: the second half).
pub open spec fn alternating_chain<R, S: Fn(&R, bool) -> (R, R)>(
    split: S,
    square: R,
    depth: nat,
    path: Seq<bool>,
    rect: R,
    rects: Seq<R>,
    halves: Seq<(R, R)>,
) -> bool {
    &&& rects.len() == path.len() + 1
    &&& halves.len() == path.len()
    &&& rects[0] == square
    &&& rects[path.len() as int] == rect
    &&& forall|t: int|
        #![trigger halves[t]]
        0 <= t < path.len() ==> split.ensures((&rects[t], (depth + t) % 2 == 0), halves[t]) && rects[t + 1] == (
        if path[t] {
            halves[t].1
        } else {
            halves[t].0
        })
}

/// Some alternating chain leads from `square` along `path` to `rect`.
pub open spec fn alternates<R, S: Fn(&R, bool) -> (R, R)>(
    split: S,
    square: R,
    depth: nat,
    path: Seq<bool>,
    rect: R,
) -> bool {
    exists|rects: Seq<R>, halves: Seq<(R, R)>| #[trigger] alternating_chain(split, square, depth, path, rect, rects, halves)
}

/// Along the way to a chunk the halvings alternate: the rectangles passed
/// from `square` to `rect` form an alternating chain, left/right at even
/// depth and top/bottom at odd depth.
pub proof fn lemma_reached_alternates<R, S: Fn(&R, bool) -> (R, R)>(
    split: S,
    square: R,
    depth: nat,
    path: Seq<bool>,
    rect: R,
)
    requires
        reached(split, square, depth, path, rect),
    ensures
        alternates(split, square, depth, path, rect),
    decreases path.len(),
{
    if path.len() == 0 {
        let rects = seq![square];
        let halves = Seq::<(R, R)>::empty();
        assert(alternating_chain(split, square, depth, path, rect, rects, halves));
    } else {
        let first = choose|halves: (R, R)|
            #[trigger] split.ensures((&square, splits_horizontally(depth)), halves) && reached(
                split,
                if path[0] { halves.1 } else { halves.0 },
                depth + 1,
                path.drop_first(),
                rect,
            );
        let next = if path[0] { first.1 } else { first.0 };
        let rest = path.drop_first();
        lemma_reached_alternates(split, next, depth + 1, rest, rect);
        assert(alternates(split, next, depth + 1, rest, rect));
        let (tail, tail_halves) = choose|rects: Seq<R>, halves: Seq<(R, R)>|
            #[trigger] alternating_chain(split, next, depth + 1, rest, rect, rects, halves);
        let rects = seq![square] + tail;
        let halves = seq![first] + tail_halves;
        assert forall|t: int| #![trigger halves[t]] 0 <= t < path.len() implies split.ensures(
            (&rects[t], (depth + t) % 2 == 0),
            halves[t],
        ) && rects[t + 1] == (if path[t] {
            halves[t].1
        } else {
            halves[t].0
        }) by {
            if t == 0 {
                assert(splits_horizontally(depth) == ((depth + 0) % 2 == 0));
            } else {
                assert(rects[t] == tail[t - 1]);
                assert(rects[t + 1] == tail[t]);
                assert(halves[t] == tail_halves[t - 1]);
                assert(path[t] == rest[t - 1]);
                assert((depth + 1 + (t - 1)) % 2 == (depth + t) % 2);
            }
        }
        assert(rects[path.len() as int] == tail[rest.len() as int]);
        assert(alternating_chain(split, square, depth, path, rect, rects, halves));
    }
}

/// Looks a position up through a grid of chunks.
///
/// The starting square is halved again and again, alternately left/right and
/// top/bottom, down to a fixed depth; each resulting chunk keeps the districts
/// that reach into it. A lookup searches only the chunks that contain the
/// position.
#[derive(Debug)]
pub struct BinarySearch<R, G> {
    bezirke: Vec<Bezirk<G>>,
    /// Each chunk: its rectangle and the indices (into `bezirke`, ascending)
    /// of the districts that reach into it.
    chunks: Vec<(R, Vec<usize>)>,
}

/// District `j` is among `members`.
pub open spec fn lists(members: Seq<usize>, j: int) -> bool {
    exists|t: int| 0 <= t < members.len() && #[trigger] members[t] as int == j
}

/// `members` lists, in ascending order, exactly those districts of `bezirke`
/// for which `intersects` answers yes about `rect`; for every other district it
/// answers no.
pub open spec fn chunk_members_ok<R, G, I: Fn(&R, &G) -> bool>(
    intersects: I,
    bezirke: Seq<Bezirk<G>>,
    rect: R,
    members: Seq<usize>,
) -> bool {
    &&& forall|a: int, b: int| 0 <= a < b < members.len() ==> members[a] < members[b]
    &&& forall|t: int|
        0 <= t < members.len() ==> #[trigger] members[t] < bezirke.len()
            && answers2(intersects, rect, bezirke[members[t] as int].location, true)
    &&& forall|j: int|
        0 <= j < bezirke.len() && !lists(members, j) ==> answers2(
            intersects,
            rect,
            #[trigger] bezirke[j].location,
            false,
        )
}

impl<R, G> BinarySearch<R, G> {
    #[verifier::type_invariant]
    closed spec fn members_in_range(&self) -> bool {
        forall|c: int, t: int|
            0 <= c < self.chunks@.len() && 0 <= t < self.chunks@[c].1@.len() ==> #[trigger] self.chunks@[c].1@[t]
                < self.bezirke@.len()
    }

    /// A chunk produced at the end of `path` from `square`: its rectangle is
    /// reached along `path`, and it holds the districts that reach into it.
    pub open spec fn chunk_ok<S: Fn(&R, bool) -> (R, R), I: Fn(&R, &G) -> bool>(
        split: S,
        intersects: I,
        bezirke: Seq<Bezirk<G>>,
        square: R,
        depth: nat,
        path: Seq<bool>,
        chunk: (R, Vec<usize>),
    ) -> bool {
        &&& reached(split, square, depth, path, chunk.0)
        &&& chunk_members_ok(intersects, bezirke, chunk.0, chunk.1@)
    }

    /// Subdivides `square` (found at depth `i`) down to depth `limit` and
    /// appends the resulting chunks, first half before second half.
    fn from_square<S: Fn(&R, bool) -> (R, R), I: Fn(&R, &G) -> bool>(
        square: R,
        i: usize,
        bezirke: &Vec<Bezirk<G>>,
        limit: usize,
        chunks: &mut Vec<(R, Vec<usize>)>,
        split: &S,
        intersects: &I,
    )
        requires
            forall|r: R, h: bool| #[trigger] split.requires((&r, h)),
            forall|r: R, j: int| 0 <= j < bezirke.len() ==> #[trigger] intersects.requires((&r, &bezirke@[j].location)),
        ensures
            final(chunks)@.len() == old(chunks)@.len() + leaf_paths(levels_below(i, limit)).len(),
            final(chunks)@.len() == old(chunks)@.len() + pow2(levels_below(i, limit)),
            forall|m: int| 0 <= m < old(chunks)@.len() ==> #[trigger] final(chunks)@[m] == old(chunks)@[m],
            forall|m: int|
                old(chunks)@.len() <= m < final(chunks)@.len() ==> Self::chunk_ok(
                    *split,
                    *intersects,
                    bezirke@,
                    square,
                    i as nat,
                    leaf_paths(levels_below(i, limit))[m - old(chunks)@.len()],
                    #[trigger] final(chunks)@[m],
                ),
        decreases limit - i,
    {
        proof {
            lemma_leaf_paths(levels_below(i, limit));
        }
        let horizontal = i % 2 == 0;
        // split square in half (also at the last level, where the halves go unused)
        let halves = split(&square, horizontal);
        if i >= limit {
            let n = bezirke.len();
            let mut members: Vec<usize> = Vec::new();
            for j in 0..n
                invariant
                    n == bezirke.len(),
                    forall|r: R, j: int| 0 <= j < bezirke.len() ==> #[trigger] intersects.requires((&r, &bezirke@[j].location)),
                    forall|a: int, b: int| 0 <= a < b < members@.len() ==> members@[a] < members@[b],
                    forall|t: int| 0 <= t < members@.len() ==> #[trigger] members@[t] < j,
                    forall|t: int|
                        0 <= t < members@.len() ==> answers2(*intersects, square, bezirke@[#[trigger] members@[t] as int].location, true),
                    forall|k: int|
                        0 <= k < j && !lists(members@, k) ==> answers2(*intersects, square, #[trigger] bezirke@[k].location, false),
            {
                assert(intersects.requires((&square, &bezirke@[j as int].location)));
                let ghost before = members@;
                let hit = intersects(&square, &bezirke[j].location);
                if hit {
                    members.push(j);
                }
                proof {
                    assert forall|k: int|
                        0 <= k < j + 1 && !lists(members@, k) implies answers2(
                            *intersects,
                            square,
                            #[trigger] bezirke@[k].location,
                            false,
                        ) by {
                        if k == j {
                            if hit {
                                assert(members@[members@.len() - 1] == j);
                                assert(lists(members@, k));
                            }
                            assert(!hit);
                            assert(intersects.ensures((&square, &bezirke@[j as int].location), false));
                        }
                        if k < j && lists(before, k) {
                            let t = choose|t: int| 0 <= t < before.len() && #[trigger] before[t] as int == k;
                            assert(members@[t] as int == k);
                        }
                    }
                }
            }
            assert(leaf_paths(0) =~= seq![Seq::<bool>::empty()]);
            chunks.push((square, members));
        } else {
            let (a, b) = halves;
            let ghost start = old(chunks)@.len();
            let ghost sub = leaf_paths(levels_below((i + 1) as usize, limit));
            Self::from_square(a, i + 1, bezirke, limit, chunks, split, intersects);
            let ghost mid = chunks@.len();
            let ghost after_first = chunks@;
            Self::from_square(b, i + 1, bezirke, limit, chunks, split, intersects);
            proof {
                let paths = leaf_paths(levels_below(i, limit));
                assert(paths == sub.map_values(|p: Seq<bool>| seq![false] + p) + sub.map_values(|p: Seq<bool>| seq![true] + p));
                assert forall|m: int| start <= m < chunks@.len() implies Self::chunk_ok(
                    *split,
                    *intersects,
                    bezirke@,
                    square,
                    i as nat,
                    paths[m - start],
                    #[trigger] chunks@[m],
                ) by {
                    if m < mid {
                        let p = sub[m - start];
                        assert(paths[m - start] == seq![false] + p);
                        assert((seq![false] + p).drop_first() =~= p);
                        assert(chunks@[m] == after_first[m]);
                        assert(split.ensures((&square, splits_horizontally(i as nat)), (a, b)));
                    } else {
                        let p = sub[m - mid];
                        assert(paths[m - start] == seq![true] + p);
                        assert((seq![true] + p).drop_first() =~= p);
                        assert(split.ensures((&square, splits_horizontally(i as nat)), (a, b)));
                    }
                }
            }
        }
    }

    /// Subdivides `starting_square` `subdivisions` levels deep, halving it with
    /// `split` (`true`: left/right, `false`: top/bottom), and gives each of the
    /// `2^subdivisions` chunks the districts for which `intersects` answers yes.
    /// Chunk `c` is the one reached along `leaf_paths(subdivisions)[c]`.
    pub fn new<S: Fn(&R, bool) -> (R, R), I: Fn(&R, &G) -> bool>(
        subdivisions: usize,
        starting_square: R,
        bezirke: Vec<Bezirk<G>>,
        split: S,
        intersects: I,
    ) -> (res: Self)
        requires
            forall|r: R, h: bool| #[trigger] split.requires((&r, h)),
            forall|r: R, j: int| 0 <= j < bezirke.len() ==> #[trigger] intersects.requires((&r, &bezirke@[j].location)),
        ensures
            res.bezirke() == bezirke@,
            res.num_chunks() == pow2(subdivisions as nat),
            forall|c: int|
                0 <= c < res.num_chunks() ==> reached(
                    split,
                    starting_square,
                    0,
                    leaf_paths(subdivisions as nat)[c],
                    #[trigger] res.chunk_rect(c),
                ),
            res.built_with(intersects),
            forall|c: int|
                0 <= c < res.num_chunks() ==> alternates(
                    split,
                    starting_square,
                    0,
                    leaf_paths(subdivisions as nat)[c],
                    #[trigger] res.chunk_rect(c),
                ),
    {
        let mut chunks: Vec<(R, Vec<usize>)> = Vec::new();
        Self::from_square(starting_square, 0, &bezirke, subdivisions, &mut chunks, &split, &intersects);
        proof {
            lemma_leaf_paths(subdivisions as nat);

        }
        let res = BinarySearch { bezirke, chunks };
        proof {
            res.lemma_chunks_alternate(split, starting_square, subdivisions as nat);
        }
        res
    }

    /// Every chunk reached from `square` is reached by an alternating chain.
    proof fn lemma_chunks_alternate<S: Fn(&R, bool) -> (R, R)>(&self, split: S, square: R, n: nat)
        requires
            forall|c: int|
                0 <= c < self.num_chunks() ==> reached(split, square, 0, leaf_paths(n)[c], #[trigger] self.chunk_rect(c)),
        ensures
            forall|c: int|
                0 <= c < self.num_chunks() ==> alternates(split, square, 0, leaf_paths(n)[c], #[trigger] self.chunk_rect(c)),
    {
        assert forall|c: int| 0 <= c < self.num_chunks() implies alternates(
            split,
            square,
            0,
            leaf_paths(n)[c],
            #[trigger] self.chunk_rect(c),
        ) by {
            lemma_reached_alternates(split, square, 0, leaf_paths(n)[c], self.chunk_rect(c));
        }
    }

    /// The number of chunks.
    pub fn chunk_count(&self) -> (n: usize)
        ensures
            n == self.num_chunks(),
    {
        self.chunks.len()
    }

    /// The rectangle of chunk `c`.
    pub fn chunk_rectangle(&self, c: usize) -> (r: &R)
        requires
            c < self.num_chunks(),
        ensures
            *r == self.chunk_rect(c as int),
    {
        &self.chunks[c].0
    }

    /// The districts that reach into chunk `c`, as ascending indices into the
    /// districts.
    pub fn chunk_districts(&self, c: usize) -> (m: &Vec<usize>)
        requires
            c < self.num_chunks(),
        ensures
            m@ == self.chunk_members(c as int),
    {
        &self.chunks[c].1
    }

    /// The districts, in the order they were given.
    pub closed spec fn bezirke(&self) -> Seq<Bezirk<G>> {
        self.bezirke@
    }

    /// The number of chunks.
    pub closed spec fn num_chunks(&self) -> nat {
        self.chunks@.len()
    }

    /// The rectangle of chunk `c`.
    pub closed spec fn chunk_rect(&self, c: int) -> R {
        self.chunks@[c].0
    }

    /// The districts that reach into chunk `c`, as ascending indices.
    pub closed spec fn chunk_members(&self, c: int) -> Seq<usize> {
        self.chunks@[c].1@
    }

    /// Every chunk holds exactly the districts for which `intersects` answers yes.
    pub open spec fn built_with<I: Fn(&R, &G) -> bool>(&self, intersects: I) -> bool {
        forall|c: int|
            0 <= c < self.num_chunks() ==> chunk_members_ok(
                intersects,
                self.bezirke(),
                #[trigger] self.chunk_rect(c),
                self.chunk_members(c),
            )
    }

    /// The location of member `t` of chunk `c`.
    pub open spec fn member_location(&self, c: int, t: int) -> G {
        self.bezirke()[self.chunk_members(c)[t] as int].location
    }

    /// Chunk `c` gives no answer: either it does not contain the position, or
    /// it does and none of its districts does.
    pub open spec fn passed_over<C: Fn(&R) -> bool, B: Fn(&G) -> bool>(
        &self,
        rect_contains: C,
        contains: B,
        c: int,
    ) -> bool {
        ||| answers(rect_contains, self.chunk_rect(c), false)
        ||| {
            &&& answers(rect_contains, self.chunk_rect(c), true)
            &&& forall|t: int|
                0 <= t < self.chunk_members(c).len() ==> answers(
                    contains,
                    #[trigger] self.member_location(c, t),
                    false,
                )
        }
    }

    /// The search stops at member `t` of chunk `c`: every earlier chunk was
    /// passed over, chunk `c` contains the position, its member `t` contains it
    /// and no later member of chunk `c` does.
    pub open spec fn stops_at<C: Fn(&R) -> bool, B: Fn(&G) -> bool>(
        &self,
        rect_contains: C,
        contains: B,
        c: int,
        t: int,
    ) -> bool {
        &&& 0 <= c < self.num_chunks()
        &&& 0 <= t < self.chunk_members(c).len()
        &&& answers(rect_contains, self.chunk_rect(c), true)
        &&& answers(contains, self.member_location(c, t), true)
        &&& forall|u: int|
            t < u < self.chunk_members(c).len() ==> answers(contains, #[trigger] self.member_location(c, u), false)
        &&& forall|d: int| 0 <= d < c ==> #[trigger] self.passed_over(rect_contains, contains, d)
    }

    /// `found` is what a lookup with these two tests may return.
    pub open spec fn lookup_post<C: Fn(&R) -> bool, B: Fn(&G) -> bool>(
        &self,
        rect_contains: C,
        contains: B,
        found: Option<Bezirk<G>>,
    ) -> bool {
        match found {
            Some(b) => exists|c: int, t: int|
                #[trigger] self.stops_at(rect_contains, contains, c, t) && b == self.bezirke()[self.chunk_members(c)[t] as int],
            None => forall|c: int| 0 <= c < self.num_chunks() ==> #[trigger] self.passed_over(rect_contains, contains, c),
        }
    }

    /// The district that contains the position: the chunks are tried in
    /// order; in the first chunk that contains the position (as `rect_contains`
    /// tells it) and has a district containing it (as `contains` tells it), the
    /// last such district is returned, its districts being tried from the last
    /// one back.
    #[verifier::loop_isolation(false)]
    pub fn lookup<C: Fn(&R) -> bool, B: Fn(&G) -> bool>(&self, rect_contains: C, contains: B) -> (res: Option<&Bezirk<G>>)
        requires
            forall|c: int| 0 <= c < self.num_chunks() ==> rect_contains.requires((&#[trigger] self.chunk_rect(c),)),
            forall|j: int| 0 <= j < self.bezirke().len() ==> contains.requires((&#[trigger] self.bezirke()[j].location,)),
        ensures
            self.lookup_post(rect_contains, contains, match res { Some(b) => Some(*b), None => None }),
    {
        proof {
            use_type_invariant(self);
        }
        let n = self.chunks.len();
        for c in 0..n
            invariant
                n == self.chunks@.len(),
                forall|d: int| 0 <= d < c ==> #[trigger] self.passed_over(rect_contains, contains, d),
        {
            let chunk = &self.chunks[c];
            assert(rect_contains.requires((&self.chunk_rect(c as int),)));
            if rect_contains(&chunk.0) {
                let members = &chunk.1;
                let mut t = members.len();
                while t > 0
                    invariant
                        members@ == self.chunk_members(c as int),
                        t <= members.len(),
                        answers(rect_contains, self.chunk_rect(c as int), true),
                        forall|u: int|
                            t <= u < members.len() ==> answers(contains, #[trigger] self.member_location(c as int, u), false),
                    decreases t,
                {
                    t = t - 1;
                    let j = members[t];
                    let e = &self.bezirke[j];
                    assert(contains.requires((&self.bezirke()[j as int].location,)));
                    if contains(&e.location) {
                        assert(self.stops_at(rect_contains, contains, c as int, t as int));
                        return Some(e);
                    }
                }
                assert(self.passed_over(rect_contains, contains, c as int));
            }
        }
        None
    }

    /// The geometric tests fit the chunks as real geometry does:
    /// - the chunks hold exactly the districts for which `intersects` answers yes,
    /// - each test behaves as a function (gives one answer per question),
    /// - a chunk that contains the position reaches into every district that
    ///   contains it, and
    /// - the position lies in at least one chunk (that is, in the starting
    ///   square).
    pub open spec fn tests_consistent<I: Fn(&R, &G) -> bool, C: Fn(&R) -> bool, B: Fn(&G) -> bool>(
        &self,
        intersects: I,
        rect_contains: C,
        contains: B,
    ) -> bool {
        &&& self.built_with(intersects)
        &&& forall|c: int| 0 <= c < self.num_chunks() ==> decides(rect_contains, #[trigger] self.chunk_rect(c))
        &&& forall|j: int| 0 <= j < self.bezirke().len() ==> decides(contains, #[trigger] self.bezirke()[j].location)
        &&& forall|c: int, j: int|
            0 <= c < self.num_chunks() && 0 <= j < self.bezirke().len() ==> answers2(
                intersects,
                self.chunk_rect(c),
                self.bezirke()[j].location,
                true,
            ) != #[trigger] answers2(intersects, self.chunk_rect(c), self.bezirke()[j].location, false)
        &&& forall|c: int, j: int|
            0 <= c < self.num_chunks() && 0 <= j < self.bezirke().len() && answers(rect_contains, self.chunk_rect(c), true)
                && answers(contains, self.bezirke()[j].location, true) ==> #[trigger] answers2(
                intersects,
                self.chunk_rect(c),
                self.bezirke()[j].location,
                true,
            )
        &&& exists|c: int| 0 <= c < self.num_chunks() && answers(rect_contains, #[trigger] self.chunk_rect(c), true)
    }

    /// The chunked lookup finds the same district as the backwards linear scan
    /// over the same districts, whenever the tests fit the chunks as real
    /// geometry does (`tests_consistent`).
    pub proof fn lemma_agrees_with_linear_scan<I: Fn(&R, &G) -> bool, C: Fn(&R) -> bool, B: Fn(&G) -> bool>(
        &self,
        intersects: I,
        rect_contains: C,
        contains: B,
        found: Option<Bezirk<G>>,
        found_linear: Option<Bezirk<G>>,
    )
        requires
            self.tests_consistent(intersects, rect_contains, contains),
            self.lookup_post(rect_contains, contains, found),
            last_match_post(contains, self.bezirke(), found_linear),
        ensures
            found == found_linear,
    {
        let bz = self.bezirke();
        match found_linear {
            Some(b2) => {
                let j2 = choose|j: int| 0 <= j < bz.len() && b2 == bz[j] && #[trigger] last_match_at(contains, bz, j);
                // every chunk that contains the position holds district j2
                assert forall|c: int|
                    0 <= c < self.num_chunks() && answers(rect_contains, #[trigger] self.chunk_rect(c), true) implies
                    lists(self.chunk_members(c), j2) by {
                    assert(answers2(intersects, self.chunk_rect(c), bz[j2].location, true));
                    assert(chunk_members_ok(intersects, bz, self.chunk_rect(c), self.chunk_members(c)));
                    if !lists(self.chunk_members(c), j2) {
                        assert(answers2(intersects, self.chunk_rect(c), bz[j2].location, false));
                    }
                }
                match found {
                    Some(b1) => {
                        let (c1, t1) = choose|c: int, t: int|
                            #[trigger] self.stops_at(rect_contains, contains, c, t) && b1 == bz[self.chunk_members(c)[t] as int];
                        let m = self.chunk_members(c1);
                        assert(chunk_members_ok(intersects, bz, self.chunk_rect(c1), m));
                        assert(lists(m, j2));
                        let t2 = choose|t: int| 0 <= t < m.len() && #[trigger] m[t] as int == j2;
                        assert(decides(contains, bz[j2].location));
                        if t2 > t1 {
                            assert(answers(contains, self.member_location(c1, t2), false));
                        } else if t2 < t1 {
                            assert(m[t2] < m[t1]);
                            let k = m[t1] as int;
                            assert(answers(contains, bz[k].location, false));
                            assert(decides(contains, bz[k].location));
                        }
                    },
                    None => {
                        let c0 = choose|c: int| 0 <= c < self.num_chunks() && answers(rect_contains, #[trigger] self.chunk_rect(c), true);
                        assert(self.passed_over(rect_contains, contains, c0));
                        assert(decides(rect_contains, self.chunk_rect(c0)));
                        let m = self.chunk_members(c0);
                        assert(lists(m, j2));
                        let t2 = choose|t: int| 0 <= t < m.len() && #[trigger] m[t] as int == j2;
                        assert(answers(contains, self.member_location(c0, t2), false));
                        assert(decides(contains, bz[j2].location));
                    },
                }
            },
            None => {
                match found {
                    Some(b1) => {
                        let (c1, t1) = choose|c: int, t: int|
                            #[trigger] self.stops_at(rect_contains, contains, c, t) && b1 == bz[self.chunk_members(c)[t] as int];
                        let m = self.chunk_members(c1);
                        assert(chunk_members_ok(intersects, bz, self.chunk_rect(c1), m));
                        let k = m[t1] as int;
                        assert(answers(contains, bz[k].location, false));
                        assert(decides(contains, bz[k].location));
                    },
                    None => {},
                }
            },
        }
    }

    /// A lookup has one possible answer when its tests behave as functions:
    /// two lookups on the same position (with the same tests) agree. The
    /// lookup only reads the chunks, so nothing changes between the calls.
    pub proof fn lemma_lookup_answer_unique<C: Fn(&R) -> bool, B: Fn(&G) -> bool>(
        &self,
        rect_contains: C,
        contains: B,
        found1: Option<Bezirk<G>>,
        found2: Option<Bezirk<G>>,
    )
        requires
            forall|c: int| 0 <= c < self.num_chunks() ==> decides(rect_contains, #[trigger] self.chunk_rect(c)),
            forall|c: int, t: int|
                0 <= c < self.num_chunks() && 0 <= t < self.chunk_members(c).len() ==> decides(
                    contains,
                    #[trigger] self.member_location(c, t),
                ),
            self.lookup_post(rect_contains, contains, found1),
            self.lookup_post(rect_contains, contains, found2),
        ensures
            found1 == found2,
    {
        match (found1, found2) {
            (Some(b1), Some(b2)) => {
                let (c1, t1) = choose|c: int, t: int|
                    #[trigger] self.stops_at(rect_contains, contains, c, t) && b1 == self.bezirke()[self.chunk_members(c)[t] as int];
                let (c2, t2) = choose|c: int, t: int|
                    #[trigger] self.stops_at(rect_contains, contains, c, t) && b2 == self.bezirke()[self.chunk_members(c)[t] as int];
                self.lemma_stop_unique(rect_contains, contains, c1, t1, c2, t2);
                self.lemma_stop_unique(rect_contains, contains, c2, t2, c1, t1);
            },
            (Some(b1), None) => {
                let (c1, t1) = choose|c: int, t: int|
                    #[trigger] self.stops_at(rect_contains, contains, c, t) && b1 == self.bezirke()[self.chunk_members(c)[t] as int];
                self.lemma_stop_not_passed(rect_contains, contains, c1, t1);
            },
            (None, Some(b2)) => {
                let (c2, t2) = choose|c: int, t: int|
                    #[trigger] self.stops_at(rect_contains, contains, c, t) && b2 == self.bezirke()[self.chunk_members(c)[t] as int];
                self.lemma_stop_not_passed(rect_contains, contains, c2, t2);
            },
            (None, None) => {},
        }
    }

    /// A chunk where the search stops is not passed over.
    proof fn lemma_stop_not_passed<C: Fn(&R) -> bool, B: Fn(&G) -> bool>(
        &self,
        rect_contains: C,
        contains: B,
        c: int,
        t: int,
    )
        requires
            forall|c: int| 0 <= c < self.num_chunks() ==> decides(rect_contains, #[trigger] self.chunk_rect(c)),
            forall|c: int, t: int|
                0 <= c < self.num_chunks() && 0 <= t < self.chunk_members(c).len() ==> decides(
                    contains,
                    #[trigger] self.member_location(c, t),
                ),
            self.stops_at(rect_contains, contains, c, t),
        ensures
            !self.passed_over(rect_contains, contains, c),
    {
        assert(decides(rect_contains, self.chunk_rect(c)));
        assert(decides(contains, self.member_location(c, t)));
    }

    /// The search stops at no chunk before, and no member after, another stop.
    proof fn lemma_stop_unique<C: Fn(&R) -> bool, B: Fn(&G) -> bool>(
        &self,
        rect_contains: C,
        contains: B,
        c1: int,
        t1: int,
        c2: int,
        t2: int,
    )
        requires
            forall|c: int| 0 <= c < self.num_chunks() ==> decides(rect_contains, #[trigger] self.chunk_rect(c)),
            forall|c: int, t: int|
                0 <= c < self.num_chunks() && 0 <= t < self.chunk_members(c).len() ==> decides(
                    contains,
                    #[trigger] self.member_location(c, t),
                ),
            self.stops_at(rect_contains, contains, c1, t1),
            self.stops_at(rect_contains, contains, c2, t2),
        ensures
            c2 <= c1,
            c1 == c2 ==> t2 <= t1,
    {
        if c1 < c2 {
            assert(self.passed_over(rect_contains, contains, c1));
            self.lemma_stop_not_passed(rect_contains, contains, c1, t1);
        }
        if c1 == c2 && t1 < t2 {
            assert(answers(contains, self.member_location(c1, t2), false));
            assert(decides(contains, self.member_location(c1, t2)));
        }
    }

    /// The number of subdivisions changes which chunks are searched, not the
    /// answer: two grids over the same districts, each fitting its tests as
    /// real geometry does (`tests_consistent`, which asks among others that
    /// the position lies in the starting square), give the same district.
    pub proof fn lemma_subdivisions_keep_answer<I: Fn(&R, &G) -> bool, C: Fn(&R) -> bool, B: Fn(&G) -> bool>(
        &self,
        other: &Self,
        intersects: I,
        rect_contains: C,
        contains: B,
        found: Option<Bezirk<G>>,
        found_other: Option<Bezirk<G>>,
    )
        requires
            self.bezirke() == other.bezirke(),
            self.tests_consistent(intersects, rect_contains, contains),
            other.tests_consistent(intersects, rect_contains, contains),
            self.lookup_post(rect_contains, contains, found),
            other.lookup_post(rect_contains, contains, found_other),
        ensures
            found == found_other,
            found == linear_answer(contains, self.bezirke()),
    {
        let lin = linear_answer(contains, self.bezirke());
        lemma_linear_answer_unique(contains, self.bezirke(), lin);
        self.lemma_agrees_with_linear_scan(intersects, rect_contains, contains, found, lin);
        other.lemma_agrees_with_linear_scan(intersects, rect_contains, contains, found_other, lin);
    }

    /// What a chunked lookup may return, spelt out over the chunks: member
    /// `t` of chunk `c`, where `c` contains the position, the member contains
    /// it and no later member of `c` does, and every earlier chunk either does
    /// not contain the position or has no member that does; or nothing, when
    /// every chunk is of that kind.
    pub proof fn lemma_chunked_result_spelt_out<C: Fn(&R) -> bool, B: Fn(&G) -> bool>(
        &self,
        rect_contains: C,
        contains: B,
        found: Option<Bezirk<G>>,
    )
        requires
            self.lookup_post(rect_contains, contains, found),
        ensures
            found matches Some(b) ==> exists|c: int, t: int|
                #![auto]
                0 <= c < self.num_chunks() && 0 <= t < self.chunk_members(c).len()
                    && b == self.bezirke()[self.chunk_members(c)[t] as int]
                    && rect_contains.ensures((&self.chunk_rect(c),), true)
                    && contains.ensures((&self.bezirke()[self.chunk_members(c)[t] as int].location,), true)
                    && (forall|u: int| #![auto] t < u < self.chunk_members(c).len() ==> contains.ensures(
                        (&self.bezirke()[self.chunk_members(c)[u] as int].location,),
                        false,
                    ))
                    && (forall|d: int| #![auto] 0 <= d < c ==> rect_contains.ensures((&self.chunk_rect(d),), false) || (
                    rect_contains.ensures((&self.chunk_rect(d),), true) && forall|u: int|
                        #![auto]
                        0 <= u < self.chunk_members(d).len() ==> contains.ensures(
                            (&self.bezirke()[self.chunk_members(d)[u] as int].location,),
                            false,
                        ))),
            found is None ==> forall|d: int|
                #![auto]
                0 <= d < self.num_chunks() ==> rect_contains.ensures((&self.chunk_rect(d),), false) || (
                rect_contains.ensures((&self.chunk_rect(d),), true) && forall|u: int|
                    #![auto]
                    0 <= u < self.chunk_members(d).len() ==> contains.ensures(
                        (&self.bezirke()[self.chunk_members(d)[u] as int].location,),
                        false,
                    )),
    {
        if let Some(b) = found {
            let (c, t) = choose|c: int, t: int|
                #[trigger] self.stops_at(rect_contains, contains, c, t) && b == self.bezirke()[self.chunk_members(c)[t] as int];
            assert forall|d: int| #![auto] 0 <= d < c implies rect_contains.ensures((&self.chunk_rect(d),), false) || (
            rect_contains.ensures((&self.chunk_rect(d),), true) && forall|u: int|
                #![auto]
                0 <= u < self.chunk_members(d).len() ==> contains.ensures(
                    (&self.bezirke()[self.chunk_members(d)[u] as int].location,),
                    false,
                )) by {
                assert(self.passed_over(rect_contains, contains, d));
                if !rect_contains.ensures((&self.chunk_rect(d),), false) {
                    assert forall|u: int| #![auto] 0 <= u < self.chunk_members(d).len() implies contains.ensures(
                        (&self.bezirke()[self.chunk_members(d)[u] as int].location,),
                        false,
                    ) by {
                        assert(answers(contains, self.member_location(d, u), false));
                    }
                }
            }
            assert forall|u: int| #![auto] t < u < self.chunk_members(c).len() implies contains.ensures(
                (&self.bezirke()[self.chunk_members(c)[u] as int].location,),
                false,
            ) by {
                assert(answers(contains, self.member_location(c, u), false));
            }
        } else {
            assert forall|d: int| #![auto] 0 <= d < self.num_chunks() implies rect_contains.ensures((&self.chunk_rect(d),), false) || (
            rect_contains.ensures((&self.chunk_rect(d),), true) && forall|u: int|
                #![auto]
                0 <= u < self.chunk_members(d).len() ==> contains.ensures(
                    (&self.bezirke()[self.chunk_members(d)[u] as int].location,),
                    false,
                )) by {
                assert(self.passed_over(rect_contains, contains, d));
                if !rect_contains.ensures((&self.chunk_rect(d),), false) {
                    assert forall|u: int| #![auto] 0 <= u < self.chunk_members(d).len() implies contains.ensures(
                        (&self.bezirke()[self.chunk_members(d)[u] as int].location,),
                        false,
                    ) by {
                        assert(answers(contains, self.member_location(d, u), false));
                    }
                }
            }
        }
    }

    /// A chunk lists, in strictly ascending order, exactly the districts for
    /// which the intersection test answered yes when the grid was built; for
    /// every district it does not list, the test answered no.
    pub proof fn lemma_chunk_members_spelt_out<I: Fn(&R, &G) -> bool>(&self, intersects: I, c: int)
        requires
            self.built_with(intersects),
            0 <= c < self.num_chunks(),
        ensures
            forall|a: int, b: int|
                0 <= a < b < self.chunk_members(c).len() ==> #[trigger] self.chunk_members(c)[a]
                    < #[trigger] self.chunk_members(c)[b],
            forall|t: int|
                0 <= t < self.chunk_members(c).len() ==> #[trigger] self.chunk_members(c)[t] < self.bezirke().len()
                    && intersects.ensures(
                    (&self.chunk_rect(c), &self.bezirke()[self.chunk_members(c)[t] as int].location),
                    true,
                ),
            forall|j: int|
                0 <= j < self.bezirke().len() && (forall|t: int|
                    0 <= t < self.chunk_members(c).len() ==> #[trigger] self.chunk_members(c)[t] as int != j)
                    ==> intersects.ensures((&self.chunk_rect(c), &#[trigger] self.bezirke()[j].location), false),
    {
        assert(chunk_members_ok(intersects, self.bezirke(), self.chunk_rect(c), self.chunk_members(c)));
        assert forall|j: int|
            0 <= j < self.bezirke().len() && (forall|t: int|
                0 <= t < self.chunk_members(c).len() ==> #[trigger] self.chunk_members(c)[t] as int != j)
                implies intersects.ensures((&self.chunk_rect(c), &#[trigger] self.bezirke()[j].location), false) by {
            if lists(self.chunk_members(c), j) {
                let t = choose|t: int| 0 <= t < self.chunk_members(c).len() && #[trigger] self.chunk_members(c)[t] as int == j;
            }
        }
    }
}

} // verus!
