use vstd::prelude::*;
use crate::catalog::{Armor, CandidatePool, Deco};
use crate::part::{part_at, ArmorPart};
use crate::skills::{
    covers, deficit, from_contributions, lemma_level_le_total, lemma_sum_prefix, lemma_total_prefix,
    level_in, lowered, merged, positive_sum_of, positive_total, Skills,
};

verus! {

/// The largest sum of positive skill levels an item may carry for a search: a
/// fifth of the smallest `isize` range, so that the merged levels of five such
/// items fit on every target.
pub const LEVEL_LIMIT: isize = 429496729;

/// The item's positive skill levels sum to at most `LEVEL_LIMIT`.
pub open spec fn bounded(a: Armor) -> bool {
    positive_total(a.skills@) <= LEVEL_LIMIT
}

impl Armor {
    /// The item's positive skill levels sum to at most `LEVEL_LIMIT`.
    pub fn within_level_limit(&self) -> (r: bool)
        ensures
            r == bounded(*self),
    {
        let mut total: isize = 0;
        let mut i: usize = 0;
        while i < self.skills.len()
            invariant
                i <= self.skills@.len(),
                total == positive_total(self.skills@.take(i as int)),
                0 <= total <= LEVEL_LIMIT,
            decreases self.skills@.len() - i,
        {
            proof {
                assert(self.skills@.take(i + 1).drop_last() =~= self.skills@.take(i as int));
                lemma_total_prefix(self.skills@, i + 1);
            }
            let level = self.skills[i].level;
            if level > 0 {
                if level > LEVEL_LIMIT - total {
                    return false;
                }
                total = total + level;
            }
            i = i + 1;
        }
        assert(self.skills@.take(self.skills@.len() as int) =~= self.skills@);
        true
    }
}

/// A decoration placed in a slot: the position of the item in the
/// combination, the slot's position on that item, and the decoration's
/// position in the decoration list.
#[derive(PartialEq, Eq, Structural, Clone, Copy, Debug)]
pub struct Assignment {
    pub piece: usize,
    pub slot: usize,
    pub deco: usize,
}

/// A decoration slot of a combination: the item's position in the
/// combination, the slot's position on the item, and its size.
#[derive(PartialEq, Eq, Structural, Clone, Copy, Debug)]
pub struct SlotRef {
    pub piece: usize,
    pub slot: usize,
    pub size: isize,
}

/// A qualifying combination: the catalog positions of its items, in the slot
/// order head, body, hands, waist, legs, the decorations it needed, and the
/// merged skill vector of its five items.
pub struct Combination {
    pub picks: Vec<usize>,
    pub decorations: Vec<Assignment>,
    pub skills: Skills,
}

/// A combination as the contracts see it: picks, placements, merged vector.
pub type Found = (Seq<usize>, Seq<Assignment>, Map<Seq<char>, int>);

impl View for Combination {
    type V = Found;

    open spec fn view(&self) -> Found {
        (self.picks@, self.decorations@, self.skills@)
    }
}

/// The result of a search: the first slot that had no candidate, or every
/// qualifying combination that was found.
pub enum SolveOutcome {
    EmptyPart(ArmorPart),
    Searched(Vec<Combination>),
}

/// The views of a list of combinations.
pub open spec fn views(v: Seq<Combination>) -> Seq<Found> {
    v.map_values(|c: Combination| c@)
}

/// Every recorded combination holds a well-formed skill vector.
pub open spec fn all_wf(v: Seq<Combination>) -> bool {
    forall|j: int| 0 <= j < v.len() ==> (#[trigger] v[j]).skills.wf()
}

/// The skill vector of the item at catalog position `i`.
pub open spec fn item_vector(items: Seq<Armor>, i: usize) -> Map<Seq<char>, int> {
    from_contributions(items[i as int].skills@)
}

/// The merged vector of the first `n` picked items.
pub open spec fn combined(items: Seq<Armor>, picks: Seq<usize>, n: int) -> Map<Seq<char>, int>
    decreases n,
{
    if n <= 0 {
        Map::empty()
    } else {
        merged(combined(items, picks, n - 1), item_vector(items, picks[n - 1]))
    }
}

/// The decoration slots of the `p`-th picked item.
pub open spec fn piece_slots(items: Seq<Armor>, picks: Seq<usize>, p: int) -> Seq<SlotRef> {
    let sizes = items[picks[p] as int].slots@;
    Seq::new(sizes.len(), |j: int| SlotRef { piece: p as usize, slot: j as usize, size: sizes[j] })
}

/// The decoration slots of the first `n` picked items, item by item.
pub open spec fn slots_of(items: Seq<Armor>, picks: Seq<usize>, n: int) -> Seq<SlotRef>
    decreases n,
{
    if n <= 0 {
        Seq::empty()
    } else {
        slots_of(items, picks, n - 1) + piece_slots(items, picks, n - 1)
    }
}

/// Decoration `d` fits a slot of `size` and supplies a skill still missing.
pub open spec fn fits(d: Deco, size: isize, need: Map<Seq<char>, int>) -> bool {
    &&& d.size <= size
    &&& d.skill.level > 0
    &&& need.contains_key(d.skill.name@)
}

/// The first position, from `j` on, of `order` whose decoration fits; the
/// length of `order` where none does.
pub open spec fn first_fit(
    decos: Seq<Deco>,
    order: Seq<usize>,
    size: isize,
    need: Map<Seq<char>, int>,
    j: int,
) -> int
    decreases order.len() - j,
{
    if j < 0 || j >= order.len() {
        order.len() as int
    } else if fits(decos[order[j] as int], size, need) {
        j
    } else {
        first_fit(decos, order, size, need, j + 1)
    }
}

/// Greedy filling from slot `j` on: each slot, while something is missing,
/// takes the first decoration of `order` that fits it. Gives what is still
/// missing at the end and the placements, after those in `acc`.
pub open spec fn fill(
    decos: Seq<Deco>,
    order: Seq<usize>,
    slots: Seq<SlotRef>,
    j: int,
    need: Map<Seq<char>, int>,
    acc: Seq<Assignment>,
) -> (Map<Seq<char>, int>, Seq<Assignment>)
    decreases slots.len() - j,
{
    if j < 0 || j >= slots.len() || need == Map::<Seq<char>, int>::empty() {
        (need, acc)
    } else {
        let f = first_fit(decos, order, slots[j].size, need, 0);
        if f < order.len() {
            let d = decos[order[f] as int];
            fill(
                decos,
                order,
                slots,
                j + 1,
                lowered(need, d.skill.name@, d.skill.level as int),
                acc.push(Assignment { piece: slots[j].piece, slot: slots[j].slot, deco: order[f] }),
            )
        } else {
            fill(decos, order, slots, j + 1, need, acc)
        }
    }
}

/// How five picked items meet the target: with no decoration where their
/// merged vector covers it, with the greedy placements where those close the
/// deficit, and not at all otherwise.
pub open spec fn outcome(
    items: Seq<Armor>,
    decos: Seq<Deco>,
    order: Seq<usize>,
    target: Map<Seq<char>, int>,
    picks: Seq<usize>,
) -> Option<Seq<Assignment>> {
    let have = combined(items, picks, 5);
    if covers(have, target) {
        Some(Seq::empty())
    } else {
        let r = fill(decos, order, slots_of(items, picks, 5), 0, deficit(target, have), Seq::empty());
        if r.0 == Map::<Seq<char>, int>::empty() {
            Some(r.1)
        } else {
            None
        }
    }
}

/// The five picked items with their placements, where they qualify.
pub open spec fn emitted(
    items: Seq<Armor>,
    decos: Seq<Deco>,
    order: Seq<usize>,
    target: Map<Seq<char>, int>,
    picks: Seq<usize>,
) -> Seq<Found> {
    match outcome(items, decos, order, target, picks) {
        Some(a) => seq![(picks, a, combined(items, picks, 5))],
        None => Seq::empty(),
    }
}

/// The qualifying combinations that extend `picks`, taking at the next slot
/// only its first `j` candidates, in the order of enumeration.
pub open spec fn results(
    items: Seq<Armor>,
    pool: CandidatePool,
    decos: Seq<Deco>,
    order: Seq<usize>,
    target: Map<Seq<char>, int>,
    picks: Seq<usize>,
    j: int,
) -> Seq<Found>
    decreases 5 - picks.len(), j,
{
    if picks.len() >= 5 {
        emitted(items, decos, order, target, picks)
    } else if j <= 0 {
        Seq::empty()
    } else {
        let c = picks.len() as int;
        results(items, pool, decos, order, target, picks, j - 1) + results(
            items,
            pool,
            decos,
            order,
            target,
            picks.push(pool.list(c)[j - 1]),
            pool.list(c + 1).len() as int,
        )
    }
}

/// Every qualifying combination of the pool, in the order of enumeration:
/// head candidates outermost, legs innermost.
pub open spec fn solutions(
    items: Seq<Armor>,
    pool: CandidatePool,
    decos: Seq<Deco>,
    order: Seq<usize>,
    target: Map<Seq<char>, int>,
) -> Seq<Found> {
    results(items, pool, decos, order, target, Seq::empty(), pool.list(0).len() as int)
}

/// What `solve` returns: the first empty slot where there is one, else every
/// solution.
pub open spec fn solve_post(
    items: Seq<Armor>,
    pool: CandidatePool,
    decos: Seq<Deco>,
    order: Seq<usize>,
    target: Map<Seq<char>, int>,
    r: SolveOutcome,
) -> bool {
    match r {
        SolveOutcome::EmptyPart(p) => exists|c: int|
            0 <= c < 5 && p == part_at(c) && pool.list(c).len() == 0 && forall|d: int|
                0 <= d < c ==> #[trigger] pool.list(d).len() > 0,
        SolveOutcome::Searched(v) => {
            &&& forall|c: int| 0 <= c < 5 ==> #[trigger] pool.list(c).len() > 0
            &&& all_wf(v@)
            &&& views(v@) == solutions(items, pool, decos, order, target)
        },
    }
}

/// The inputs a search needs: candidates and decoration positions in range,
/// and candidates whose levels stay within `LEVEL_LIMIT`.
pub open spec fn search_ready(
    items: Seq<Armor>,
    pool: CandidatePool,
    decos: Seq<Deco>,
    order: Seq<usize>,
) -> bool {
    &&& pool.within(items.len() as int)
    &&& forall|j: int| 0 <= j < order.len() ==> #[trigger] order[j] < decos.len()
    &&& forall|c: int, j: int|
        0 <= c < 5 && 0 <= j < pool.list(c).len() ==> bounded(items[#[trigger] pool.list(c)[j] as int])
}

proof fn lemma_combined_push(items: Seq<Armor>, picks: Seq<usize>, x: usize, n: int)
    requires
        0 <= n <= picks.len(),
    ensures
        combined(items, picks.push(x), n) == combined(items, picks, n),
    decreases n,
{
    if n > 0 {
        lemma_combined_push(items, picks, x, n - 1);
        assert(picks.push(x)[n - 1] == picks[n - 1]);
    }
}

proof fn lemma_combined_bound(items: Seq<Armor>, picks: Seq<usize>, n: int)
    requires
        0 <= n <= picks.len(),
        forall|p: int| 0 <= p < n ==> bounded(items[#[trigger] picks[p] as int]),
    ensures
        forall|k: Seq<char>| level_in(#[trigger] combined(items, picks, n), k) <= n * LEVEL_LIMIT,
        forall|k: Seq<char>| #[trigger] combined(items, picks, n).contains_key(k) ==> combined(items, picks, n)[k] >= 0,
    decreases n,
{
    if n > 0 {
        lemma_combined_bound(items, picks, n - 1);
        let it = items[picks[n - 1] as int].skills@;
        assert(bounded(items[picks[n - 1] as int]));
        assert forall|k: Seq<char>| level_in(#[trigger] combined(items, picks, n), k) <= n * LEVEL_LIMIT by {
            lemma_level_le_total(it, k);
            assert(level_in(combined(items, picks, n - 1), k) <= (n - 1) * LEVEL_LIMIT);
        }
        assert forall|k: Seq<char>| #[trigger] combined(items, picks, n).contains_key(k) implies combined(items, picks, n)[k] >= 0 by {
            lemma_level_le_total(it, k);
            if combined(items, picks, n - 1).contains_key(k) {
            }
        }
    }
}

/// The first position of `order` whose decoration fits a slot of `size`.
fn first_fit_exec(decos: &Vec<Deco>, order: &Vec<usize>, size: isize, need: &Skills) -> (r: usize)
    requires
        need.wf(),
        forall|j: int| 0 <= j < order@.len() ==> #[trigger] order@[j] < decos@.len(),
    ensures
        r == first_fit(decos@, order@, size, need@, 0),
{
    let mut j: usize = 0;
    while j < order.len()
        invariant
            need.wf(),
            j <= order@.len(),
            forall|q: int| 0 <= q < order@.len() ==> #[trigger] order@[q] < decos@.len(),
            first_fit(decos@, order@, size, need@, 0) == first_fit(decos@, order@, size, need@, j as int),
        decreases order@.len() - j,
    {
        let d = &decos[order[j]];
        if d.size <= size && d.skill.level > 0 && need.has_skill(d.skill.name.as_str()) {
            return j;
        }
        j = j + 1;
    }
    j
}

/// Runs the greedy filling over all `slots` from a deficit of `need`.
fn fill_slots(decos: &Vec<Deco>, order: &Vec<usize>, slots: &Vec<SlotRef>, need: Skills) -> (r: (
    Skills,
    Vec<Assignment>,
))
    requires
        need.wf(),
        forall|j: int| 0 <= j < order@.len() ==> #[trigger] order@[j] < decos@.len(),
    ensures
        r.0.wf(),
        (r.0@, r.1@) == fill(decos@, order@, slots@, 0, need@, Seq::empty()),
{
    let ghost start = need@;
    let mut need = need;
    let mut placed: Vec<Assignment> = Vec::new();
    let mut j: usize = 0;
    while j < slots.len() && !need.is_empty()
        invariant
            need.wf(),
            j <= slots@.len(),
            forall|q: int| 0 <= q < order@.len() ==> #[trigger] order@[q] < decos@.len(),
            fill(decos@, order@, slots@, 0, start, Seq::empty()) == fill(
                decos@,
                order@,
                slots@,
                j as int,
                need@,
                placed@,
            ),
        decreases slots@.len() - j,
    {
        let s = slots[j];
        let f = first_fit_exec(decos, order, s.size, &need);
        if f < order.len() {
            let d = &decos[order[f]];
            proof {
                lemma_first_fit_fits(decos@, order@, s.size, need@, 0);
            }
            need.lower(&d.skill.name, d.skill.level);
            placed.push(Assignment { piece: s.piece, slot: s.slot, deco: order[f] });
        }
        j = j + 1;
    }
    (need, placed)
}

proof fn lemma_first_fit_fits(
    decos: Seq<Deco>,
    order: Seq<usize>,
    size: isize,
    need: Map<Seq<char>, int>,
    j: int,
)
    requires
        0 <= j,
    ensures
        j <= first_fit(decos, order, size, need, j) <= order.len() || order.len() < j,
        first_fit(decos, order, size, need, j) < order.len() ==> fits(
            decos[order[first_fit(decos, order, size, need, j)] as int],
            size,
            need,
        ),
    decreases order.len() - j,
{
    if j < order.len() && !fits(decos[order[j] as int], size, need) {
        lemma_first_fit_fits(decos, order, size, need, j + 1);
    }
}

/// The decoration slots of the five picked items, item by item.
fn collect_slots(items: &Vec<Armor>, picks: &Vec<usize>) -> (r: Vec<SlotRef>)
    requires
        picks@.len() == 5,
        forall|p: int| 0 <= p < 5 ==> #[trigger] picks@[p] < items@.len(),
    ensures
        r@ == slots_of(items@, picks@, 5),
{
    let mut r: Vec<SlotRef> = Vec::new();
    let mut p: usize = 0;
    while p < 5
        invariant
            p <= 5,
            picks@.len() == 5,
            forall|q: int| 0 <= q < 5 ==> #[trigger] picks@[q] < items@.len(),
            r@ == slots_of(items@, picks@, p as int),
        decreases 5 - p,
    {
        let sizes = &items[picks[p]].slots;
        let ghost base = r@;
        let mut j: usize = 0;
        while j < sizes.len()
            invariant
                p < 5,
                j <= sizes@.len(),
                picks@.len() == 5,
                sizes@ == items@[picks@[p as int] as int].slots@,
                r@ == base + piece_slots(items@, picks@, p as int).take(j as int),
            decreases sizes@.len() - j,
        {
            r.push(SlotRef { piece: p, slot: j, size: sizes[j] });
            proof {
                assert(r@ =~= base + piece_slots(items@, picks@, p as int).take(j + 1));
            }
            j = j + 1;
        }
        proof {
            assert(piece_slots(items@, picks@, p as int).take(j as int) =~= piece_slots(items@, picks@, p as int));
        }
        p = p + 1;
    }
    r
}

/// A copy of a list of positions.
fn copy_positions(v: &Vec<usize>) -> (r: Vec<usize>)
    ensures
        r@ == v@,
{
    let mut r: Vec<usize> = Vec::new();
    let mut i: usize = 0;
    while i < v.len()
        invariant
            i <= v@.len(),
            r@ == v@.take(i as int),
        decreases v@.len() - i,
    {
        r.push(v[i]);
        proof {
            assert(r@ =~= v@.take(i + 1));
        }
        i = i + 1;
    }
    proof {
        assert(v@.take(v@.len() as int) =~= v@);
    }
    r
}

/// Checks the five picked items, whose merged vector is `have`, and records
/// them where they qualify.
fn evaluate(
    items: &Vec<Armor>,
    decos: &Vec<Deco>,
    order: &Vec<usize>,
    target: &Skills,
    picks: &Vec<usize>,
    have: &Skills,
    out: &mut Vec<Combination>,
)
    requires
        target.wf(),
        have.wf(),
        picks@.len() == 5,
        forall|p: int| 0 <= p < 5 ==> #[trigger] picks@[p] < items@.len(),
        forall|j: int| 0 <= j < order@.len() ==> #[trigger] order@[j] < decos@.len(),
        have@ == combined(items@, picks@, 5),
    ensures
        views(final(out)@) == views(old(out)@) + emitted(items@, decos@, order@, target@, picks@),
        all_wf(old(out)@) ==> all_wf(final(out)@),
{
    let ghost before = views(out@);
    let found = if have.is_superset_of(target) {
        Some(Vec::new())
    } else {
        let mut need = target.duplicate();
        need.subtract(have);
        let slots = collect_slots(items, picks);
        let (left, placed) = fill_slots(decos, order, &slots, need);
        if left.is_empty() {
            Some(placed)
        } else {
            None
        }
    };
    match found {
        Some(placed) => {
            out.push(Combination { picks: copy_positions(picks), decorations: placed, skills: have.duplicate() });
            proof {
                assert(views(out@) =~= before + emitted(items@, decos@, order@, target@, picks@));
            }
        },
        None => {
            proof {
                assert(views(out@) =~= before + emitted(items@, decos@, order@, target@, picks@));
            }
        },
    }
}


/// Searches every extension of `picks`, whose merged vector is `have`, and
/// records the qualifying ones in enumeration order.
fn search(
    items: &Vec<Armor>,
    pool: &CandidatePool,
    decos: &Vec<Deco>,
    order: &Vec<usize>,
    target: &Skills,
    picks: &mut Vec<usize>,
    have: &Skills,
    out: &mut Vec<Combination>,
)
    requires
        target.wf(),
        have.wf(),
        search_ready(items@, *pool, decos@, order@),
        old(picks)@.len() <= 5,
        forall|p: int|
            0 <= p < old(picks)@.len() ==> #[trigger] old(picks)@[p] < items@.len() && bounded(
                items@[old(picks)@[p] as int],
            ),
        have@ == combined(items@, old(picks)@, old(picks)@.len() as int),
    ensures
        final(picks)@ == old(picks)@,
        all_wf(old(out)@) ==> all_wf(final(out)@),
        views(final(out)@) == views(old(out)@) + results(
            items@,
            *pool,
            decos@,
            order@,
            target@,
            old(picks)@,
            pool.list(old(picks)@.len() as int).len() as int,
        ),
    decreases 5 - old(picks)@.len(),
{
    if picks.len() == 5 {
        evaluate(items, decos, order, target, picks, have, out);
        return;
    }
    let ghost start = picks@;
    let ghost before = views(out@);
    let c = picks.len();
    let list = pool.candidates(c);
    let mut j: usize = 0;
    while j < list.len()
        invariant
            target.wf(),
            have.wf(),
            search_ready(items@, *pool, decos@, order@),
            c < 5,
            c == start.len(),
            start == old(picks)@,
            picks@ == start,
            list@ == pool.list(c as int),
            j <= list@.len(),
            forall|p: int|
                0 <= p < start.len() ==> #[trigger] start[p] < items@.len() && bounded(
                    items@[start[p] as int],
                ),
            have@ == combined(items@, start, c as int),
            views(out@) == before + results(items@, *pool, decos@, order@, target@, start, j as int),
            all_wf(old(out)@) ==> all_wf(out@),
        decreases list@.len() - j,
    {
        let i = list[j];
        proof {
            assert(pool.list(c as int)[j as int] == i);
            assert(i < items@.len());
            assert(bounded(items@[i as int]));
            lemma_combined_bound(items@, start, c as int);
            assert forall|k: Seq<char>| positive_sum_of(items@[i as int].skills@, k) <= isize::MAX by {
                lemma_sum_prefix(items@[i as int].skills@, k, 0);
            }
        }
        let item = Skills::from_skill_vec(&items[i].skills);
        let mut next = have.duplicate();
        proof {
            assert forall|k: Seq<char>| next@.contains_key(k) && item@.contains_key(k) implies next@[k]
                + item@[k] <= isize::MAX by {
                lemma_level_le_total(items@[i as int].skills@, k);
                assert(level_in(combined(items@, start, c as int), k) <= c * LEVEL_LIMIT);
            }
        }
        next.merge(&item);
        picks.push(i);
        proof {
            lemma_combined_push(items@, start, i, c as int);
            assert(picks@[c as int] == i);
            assert(next@ == combined(items@, picks@, c + 1));
        }
        search(items, pool, decos, order, target, picks, &next, out);
        picks.pop();
        proof {
            assert(picks@ =~= start);
            assert(start.push(i) == start.push(pool.list(c as int)[j as int]));
            assert(views(out@) =~= before + results(items@, *pool, decos@, order@, target@, start, j + 1));
        }
        j = j + 1;
    }
}

/// Searches the pool for the combinations, one candidate per slot, that meet
/// `target`, each alone or with decorations placed greedily in its slots,
/// trying decorations in the given `order`. Reports the first slot without
/// candidates instead where there is one.
pub fn solve(
    items: &Vec<Armor>,
    pool: &CandidatePool,
    decos: &Vec<Deco>,
    order: &Vec<usize>,
    target: &Skills,
) -> (r: SolveOutcome)
    requires
        target.wf(),
        search_ready(items@, *pool, decos@, order@),
    ensures
        solve_post(items@, *pool, decos@, order@, target@, r),
{
    if let Some(p) = pool.empty_part() {
        return SolveOutcome::EmptyPart(p);
    }
    let mut out: Vec<Combination> = Vec::new();
    let mut picks: Vec<usize> = Vec::new();
    let have = Skills::new();
    proof {
        assert(views(out@) =~= Seq::empty());
    }
    search(items, pool, decos, order, target, &mut picks, &have, &mut out);
    proof {
        assert(views(out@) =~= solutions(items@, *pool, decos@, order@, target@));
    }
    SolveOutcome::Searched(out)
}


proof fn lemma_results_empty(
    items: Seq<Armor>,
    pool: CandidatePool,
    decos: Seq<Deco>,
    order: Seq<usize>,
    target: Map<Seq<char>, int>,
    picks: Seq<usize>,
    j: int,
    c: int,
)
    requires
        0 <= c < 5,
        pool.list(c).len() == 0,
        picks.len() <= c,
        picks.len() == c ==> j <= 0,
    ensures
        results(items, pool, decos, order, target, picks, j) == Seq::<Found>::empty(),
    decreases 5 - picks.len(), j,
{
    if j > 0 {
        let n = picks.len() as int;
        lemma_results_empty(items, pool, decos, order, target, picks, j - 1, c);
        let next = picks.push(pool.list(n)[j - 1]);
        lemma_results_empty(items, pool, decos, order, target, next, pool.list(n + 1).len() as int, c);
        assert(results(items, pool, decos, order, target, picks, j) =~= Seq::<Found>::empty());
    }
}

/// A slot without candidates leaves nothing to enumerate: the pool has no
/// solution at all.
pub proof fn lemma_empty_part_no_solutions(
    items: Seq<Armor>,
    pool: CandidatePool,
    decos: Seq<Deco>,
    order: Seq<usize>,
    target: Map<Seq<char>, int>,
    c: int,
)
    requires
        0 <= c < 5,
        pool.list(c).len() == 0,
    ensures
        solutions(items, pool, decos, order, target) == Seq::<Found>::empty(),
{
    lemma_results_empty(items, pool, decos, order, target, Seq::empty(), pool.list(0).len() as int, c);
}

/// A search run twice on the same inputs gives the same answer: the same
/// empty slot, or the same combinations with the same placements.
pub proof fn lemma_solve_repeatable(
    items: Seq<Armor>,
    pool: CandidatePool,
    decos: Seq<Deco>,
    order: Seq<usize>,
    target: Map<Seq<char>, int>,
    r1: SolveOutcome,
    r2: SolveOutcome,
)
    requires
        solve_post(items, pool, decos, order, target, r1),
        solve_post(items, pool, decos, order, target, r2),
    ensures
        match (r1, r2) {
            (SolveOutcome::EmptyPart(first), SolveOutcome::EmptyPart(second)) => first == second,
            (SolveOutcome::Searched(v1), SolveOutcome::Searched(v2)) => views(v1@) == views(v2@),
            _ => false,
        },
{
    match (r1, r2) {
        (SolveOutcome::EmptyPart(first), SolveOutcome::EmptyPart(second)) => {
            let first_c = choose|c: int|
                0 <= c < 5 && first == part_at(c) && pool.list(c).len() == 0 && forall|d: int|
                    0 <= d < c ==> #[trigger] pool.list(d).len() > 0;
            let second_c = choose|c: int|
                0 <= c < 5 && second == part_at(c) && pool.list(c).len() == 0 && forall|d: int|
                    0 <= d < c ==> #[trigger] pool.list(d).len() > 0;
            if first_c < second_c {
                assert(pool.list(first_c).len() > 0);
            } else if second_c < first_c {
                assert(pool.list(second_c).len() > 0);
            }
        },
        (SolveOutcome::EmptyPart(first), SolveOutcome::Searched(_)) => {
            let first_c = choose|c: int|
                0 <= c < 5 && first == part_at(c) && pool.list(c).len() == 0 && forall|d: int|
                    0 <= d < c ==> #[trigger] pool.list(d).len() > 0;
            assert(pool.list(first_c).len() > 0);
        },
        (SolveOutcome::Searched(_), SolveOutcome::EmptyPart(second)) => {
            let second_c = choose|c: int|
                0 <= c < 5 && second == part_at(c) && pool.list(c).len() == 0 && forall|d: int|
                    0 <= d < c ==> #[trigger] pool.list(d).len() > 0;
            assert(pool.list(second_c).len() > 0);
        },
        _ => {},
    }
}

} // verus!
