use vstd::prelude::*;

use crate::bezirk::Bezirk;
use super::{answers, decides};

verus! {

/// Looks a position up by testing every district, the last one first.
pub struct NaiveLinear<G> {
    bezirke: Vec<Bezirk<G>>,
}

/// `found` is what a backwards scan of `bezirke` with the containment test
/// `contains` may return: the last district for which the test answers yes,
/// or nothing when it answers no for all of them.
pub open spec fn last_match_post<G, B: Fn(&G) -> bool>(
    contains: B,
    bezirke: Seq<Bezirk<G>>,
    found: Option<Bezirk<G>>,
) -> bool {
    match found {
        Some(b) => exists|j: int|
            0 <= j < bezirke.len() && b == bezirke[j] && #[trigger] last_match_at(contains, bezirke, j),
        None => forall|j: int| 0 <= j < bezirke.len() ==> answers(contains, #[trigger] bezirke[j].location, false),
    }
}

/// District `j` answers yes and every later district answers no.
pub open spec fn last_match_at<G, B: Fn(&G) -> bool>(contains: B, bezirke: Seq<Bezirk<G>>, j: int) -> bool {
    &&& answers(contains, bezirke[j].location, true)
    &&& forall|k: int| j < k < bezirke.len() ==> answers(contains, #[trigger] bezirke[k].location, false)
}

/// The index of the last of the first `n` districts for which `contains`
/// may answer yes.
pub open spec fn last_yes<G, B: Fn(&G) -> bool>(contains: B, bezirke: Seq<Bezirk<G>>, n: int) -> Option<int>
    decreases n,
{
    if n <= 0 {
        None
    } else if answers(contains, bezirke[n - 1].location, true) {
        Some(n - 1)
    } else {
        last_yes(contains, bezirke, n - 1)
    }
}

/// The district a backwards scan finds when `contains` behaves as a function.
pub open spec fn linear_answer<G, B: Fn(&G) -> bool>(contains: B, bezirke: Seq<Bezirk<G>>) -> Option<Bezirk<G>> {
    match last_yes(contains, bezirke, bezirke.len() as int) {
        Some(j) => Some(bezirke[j]),
        None => None,
    }
}

proof fn lemma_last_yes<G, B: Fn(&G) -> bool>(contains: B, bezirke: Seq<Bezirk<G>>, n: int)
    requires
        0 <= n <= bezirke.len(),
        forall|j: int| 0 <= j < bezirke.len() ==> decides(contains, #[trigger] bezirke[j].location),
    ensures
        match last_yes(contains, bezirke, n) {
            Some(j) => 0 <= j < n && answers(contains, bezirke[j].location, true) && forall|k: int|
                j < k < n ==> answers(contains, #[trigger] bezirke[k].location, false),
            None => forall|k: int| 0 <= k < n ==> answers(contains, #[trigger] bezirke[k].location, false),
        },
    decreases n,
{
    if n > 0 {
        lemma_last_yes(contains, bezirke, n - 1);
        assert(decides(contains, bezirke[n - 1].location));
    }
}

/// When `contains` behaves as a function, a backwards scan has exactly one
/// possible answer, `linear_answer`: two lookups with the same test agree.
pub proof fn lemma_linear_answer_unique<G, B: Fn(&G) -> bool>(
    contains: B,
    bezirke: Seq<Bezirk<G>>,
    found: Option<Bezirk<G>>,
)
    requires
        forall|j: int| 0 <= j < bezirke.len() ==> decides(contains, #[trigger] bezirke[j].location),
    ensures
        last_match_post(contains, bezirke, linear_answer(contains, bezirke)),
        last_match_post(contains, bezirke, found) ==> found == linear_answer(contains, bezirke),
{
    let n = bezirke.len() as int;
    lemma_last_yes(contains, bezirke, n);
    match last_yes(contains, bezirke, n) {
        Some(j) => {
            assert(last_match_at(contains, bezirke, j));
        },
        None => {},
    }
    if last_match_post(contains, bezirke, found) {
        match found {
            Some(b) => {
                let j = choose|j: int| 0 <= j < bezirke.len() && b == bezirke[j] && #[trigger] last_match_at(contains, bezirke, j);
                assert(decides(contains, bezirke[j].location));
                match last_yes(contains, bezirke, n) {
                    Some(j2) => {
                        assert(decides(contains, bezirke[j2].location));
                        if j < j2 {
                            assert(answers(contains, bezirke[j2].location, false));
                        } else if j2 < j {
                            assert(answers(contains, bezirke[j].location, false));
                        }
                    },
                    None => {
                        assert(answers(contains, bezirke[j].location, false));
                    },
                }
            },
            None => {
                match last_yes(contains, bezirke, n) {
                    Some(j2) => {
                        assert(decides(contains, bezirke[j2].location));
                        assert(answers(contains, bezirke[j2].location, false));
                    },
                    None => {},
                }
            },
        }
    }
}

impl<G> NaiveLinear<G> {
    pub closed spec fn bezirke(&self) -> Seq<Bezirk<G>> {
        self.bezirke@
    }

    /// Holds `bezirke` in the given order.
    pub fn new(bezirke: Vec<Bezirk<G>>) -> (res: Self)
        ensures
            res.bezirke() == bezirke@,
    {
        NaiveLinear { bezirke }
    }

    /// The last district, in data order, whose geometry contains the position,
    /// as `contains` tells it; districts are tested from the last one back and
    /// the scan stops at the first yes.
    #[verifier::loop_isolation(false)]
    pub fn lookup<B: Fn(&G) -> bool>(&self, contains: B) -> (res: Option<&Bezirk<G>>)
        requires
            forall|j: int| 0 <= j < self.bezirke().len() ==> contains.requires((&#[trigger] self.bezirke()[j].location,)),
        ensures
            last_match_post(contains, self.bezirke(), match res { Some(b) => Some(*b), None => None }),
    {
        let n = self.bezirke.len();
        let mut j = n;
        while j > 0
            invariant
                j <= n == self.bezirke@.len(),
                forall|k: int| j <= k < n ==> answers(contains, #[trigger] self.bezirke@[k].location, false),
            decreases j,
        {
            j = j - 1;
            let e = &self.bezirke[j];
            assert(contains.requires((&self.bezirke()[j as int].location,)));
            if contains(&e.location) {
                assert(last_match_at(contains, self.bezirke@, j as int));
                return Some(e);
            }
        }
        None
    }
}

/// What a backwards scan may return, spelt out: a district `j` for which the
/// test answers yes while it answers no for every later district; or
/// nothing, when it answers no for every district.
pub proof fn lemma_linear_result_is_last_yes<G, B: Fn(&G) -> bool>(
    contains: B,
    bezirke: Seq<Bezirk<G>>,
    found: Option<Bezirk<G>>,
)
    requires
        last_match_post(contains, bezirke, found),
    ensures
        found matches Some(b) ==> exists|j: int|
            0 <= j < bezirke.len() && b == bezirke[j] && #[trigger] contains.ensures((&bezirke[j].location,), true)
                && forall|k: int| j < k < bezirke.len() ==> #[trigger] contains.ensures((&bezirke[k].location,), false),
        found is None ==> forall|k: int| 0 <= k < bezirke.len() ==> #[trigger] contains.ensures((&bezirke[k].location,), false),
{
    if let Some(b) = found {
        let j = choose|j: int| 0 <= j < bezirke.len() && b == bezirke[j] && #[trigger] last_match_at(contains, bezirke, j);
        assert(contains.ensures((&bezirke[j].location,), true));
    }
}

} // verus!
