use vstd::prelude::*;
use crate::part::{classify, part_at, ArmorPart, PartKeywords};
use crate::skills::{from_contributions, lemma_contribution_names, shares_name, Skill, Skills};

verus! {

/// A catalog item: its name, slot, rarity, raw skill contributions and the
/// sizes of its decoration slots.
pub struct Armor {
    pub name: String,
    pub part: ArmorPart,
    pub rarity: isize,
    pub skills: Vec<Skill>,
    pub slots: Vec<isize>,
}

/// A decoration: a single skill that fits any slot at least `size` large.
pub struct Deco {
    pub name: String,
    pub size: isize,
    pub skill: Skill,
}

/// Relies on `slice::sort_unstable`: the same sizes, in ascending order.
#[verifier::external_body]
fn sort_sizes(v: &mut Vec<isize>)
    ensures
        final(v)@.to_multiset() == old(v)@.to_multiset(),
        forall|i: int, j: int| 0 <= i <= j < final(v)@.len() ==> final(v)@[i] <= final(v)@[j],
{
    v.sort_unstable()
}

impl Armor {
    /// A catalog record as an item: its slot found from its name by the
    /// dictionary, its decoration slots in ascending order of size.
    pub fn from_catalog(
        name: String,
        rarity: isize,
        skills: Vec<Skill>,
        slots: Vec<isize>,
        keywords: &PartKeywords,
    ) -> (r: Armor)
        ensures
            r.name == name,
            r.part == classify(*keywords, name@),
            r.rarity == rarity,
            r.skills == skills,
            r.slots@.to_multiset() == slots@.to_multiset(),
            forall|i: int, j: int| 0 <= i <= j < r.slots@.len() ==> r.slots@[i] <= r.slots@[j],
    {
        let part = ArmorPart::from_name(keywords, name.as_str());
        let mut slots = slots;
        sort_sizes(&mut slots);
        Armor { name, part, rarity, skills, slots }
    }

    /// Tries the dictionary again on an item that has no slot yet. Answers
    /// whether the item still has none and needs an operator's answer.
    pub fn reclassify(&mut self, keywords: &PartKeywords) -> (needs_answer: bool)
        ensures
            old(self).part != ArmorPart::Unknown ==> *final(self) == *old(self),
            old(self).part == ArmorPart::Unknown ==> final(self).part == classify(
                *keywords,
                old(self).name@,
            ),
            final(self).name == old(self).name,
            final(self).rarity == old(self).rarity,
            final(self).skills == old(self).skills,
            final(self).slots == old(self).slots,
            needs_answer == (final(self).part == ArmorPart::Unknown),
    {
        if self.part != ArmorPart::Unknown {
            return false;
        }
        self.part = ArmorPart::from_name(keywords, self.name.as_str());
        self.part == ArmorPart::Unknown
    }

    /// Applies an operator's answer for this item: a slot and the keyword that
    /// marks it. A declined answer (`Unknown`) leaves item and dictionary as
    /// they are; otherwise the item takes the slot and the keyword is added to
    /// it. Answers whether the dictionary changed and must be stored again.
    pub fn apply_answer(
        &mut self,
        keywords: &mut PartKeywords,
        choice: ArmorPart,
        keyword: &str,
    ) -> (learned: bool)
        ensures
            learned == (choice != ArmorPart::Unknown),
            !learned ==> *final(self) == *old(self),
            learned ==> final(self).part == choice,
            final(self).name == old(self).name,
            final(self).rarity == old(self).rarity,
            final(self).skills == old(self).skills,
            final(self).slots == old(self).slots,
            forall|p: ArmorPart|
                #[trigger] final(keywords).words_for(p) == if p == choice && learned {
                    old(keywords).words_for(p).push(keyword@)
                } else {
                    old(keywords).words_for(p)
                },
    {
        if choice == ArmorPart::Unknown {
            return false;
        }
        self.part = choice;
        keywords.add_keyword(&choice, keyword);
        true
    }
}

/// An item may stand in slot `p`: it is placed there, rare enough, and
/// offers a skill of the target.
pub open spec fn eligible(a: Armor, p: ArmorPart, target: Map<Seq<char>, int>, min_rarity: int) -> bool {
    &&& a.part == p
    &&& a.rarity >= min_rarity
    &&& shares_name(from_contributions(a.skills@), target)
}

/// The positions, among the first `n` items, of those eligible for slot `p`,
/// in catalog order.
pub open spec fn eligible_upto(
    items: Seq<Armor>,
    p: ArmorPart,
    target: Map<Seq<char>, int>,
    min_rarity: int,
    n: int,
) -> Seq<usize>
    decreases n,
{
    if n <= 0 {
        Seq::empty()
    } else {
        let rest = eligible_upto(items, p, target, min_rarity, n - 1);
        if eligible(items[n - 1], p, target, min_rarity) {
            rest.push((n - 1) as usize)
        } else {
            rest
        }
    }
}

/// The contributions offer, at a positive level, a skill that `target` holds.
fn offers_any(skills: &Vec<Skill>, target: &Skills) -> (r: bool)
    requires
        target.wf(),
    ensures
        r == shares_name(from_contributions(skills@), target@),
{
    let mut i: usize = 0;
    while i < skills.len()
        invariant
            target.wf(),
            i <= skills@.len(),
            forall|j: int|
                0 <= j < i ==> !((#[trigger] skills@[j]).level > 0 && target@.contains_key(
                    skills@[j].name@,
                )),
        decreases skills@.len() - i,
    {
        if skills[i].level > 0 && target.has_skill(skills[i].name.as_str()) {
            proof {
                lemma_contribution_names(skills@);
                assert(from_contributions(skills@).contains_key(skills@[i as int].name@));
            }
            return true;
        }
        i = i + 1;
    }
    proof {
        lemma_contribution_names(skills@);
        if shares_name(from_contributions(skills@), target@) {
            let k = choose|k: Seq<char>|
                from_contributions(skills@).contains_key(k) && target@.contains_key(k);
            assert(from_contributions(skills@).contains_key(k));
            let j = choose|j: int| 0 <= j < skills@.len() && skills@[j].level > 0 && skills@[j].name@ == k;
            let _ = skills@[j];
        }
    }
    false
}

/// The positions of the items eligible for slot `p`, in catalog order.
fn collect_part(items: &Vec<Armor>, p: ArmorPart, target: &Skills, min_rarity: isize) -> (r: Vec<
    usize,
>)
    requires
        target.wf(),
    ensures
        r@ == eligible_upto(items@, p, target@, min_rarity as int, items@.len() as int),
{
    let mut r: Vec<usize> = Vec::new();
    let mut i: usize = 0;
    while i < items.len()
        invariant
            target.wf(),
            i <= items@.len(),
            r@ == eligible_upto(items@, p, target@, min_rarity as int, i as int),
        decreases items@.len() - i,
    {
        let a = &items[i];
        if a.part == p && a.rarity >= min_rarity && offers_any(&a.skills, target) {
            r.push(i);
        }
        i = i + 1;
    }
    r
}

/// For each of the five slots, the positions in the catalog of the items that
/// may stand in it, in catalog order.
pub struct CandidatePool {
    pub head: Vec<usize>,
    pub body: Vec<usize>,
    pub hands: Vec<usize>,
    pub waist: Vec<usize>,
    pub legs: Vec<usize>,
}

impl CandidatePool {
    /// The candidates at position `c` of the slot order.
    pub open spec fn list(&self, c: int) -> Seq<usize> {
        if c == 0 {
            self.head@
        } else if c == 1 {
            self.body@
        } else if c == 2 {
            self.hands@
        } else if c == 3 {
            self.waist@
        } else {
            self.legs@
        }
    }

    /// Every candidate is a position in `items`.
    pub open spec fn within(&self, n: int) -> bool {
        forall|c: int, j: int| 0 <= c < 5 && 0 <= j < self.list(c).len() ==> #[trigger] self.list(c)[j] < n
    }

    /// Groups the items by slot, keeping those placed in a slot, of rarity at
    /// least `min_rarity`, and offering a skill of `target`.
    pub fn build(items: &Vec<Armor>, target: &Skills, min_rarity: isize) -> (r: Self)
        requires
            target.wf(),
        ensures
            forall|c: int|
                0 <= c < 5 ==> #[trigger] r.list(c) == eligible_upto(
                    items@,
                    part_at(c),
                    target@,
                    min_rarity as int,
                    items@.len() as int,
                ),
            r.within(items@.len() as int),
    {
        let r = CandidatePool {
            head: collect_part(items, ArmorPart::Head, target, min_rarity),
            body: collect_part(items, ArmorPart::Body, target, min_rarity),
            hands: collect_part(items, ArmorPart::Hands, target, min_rarity),
            waist: collect_part(items, ArmorPart::Waist, target, min_rarity),
            legs: collect_part(items, ArmorPart::Legs, target, min_rarity),
        };
        let n = items.len();
        proof {
            assert forall|c: int, j: int|
                0 <= c < 5 && 0 <= j < r.list(c).len() implies #[trigger] r.list(c)[j] < items@.len() by {
                lemma_eligible_below(items@, part_at(c), target@, min_rarity as int, n as int);
            }
        }
        r
    }

    /// The candidates of slot `c` of the order head, body, hands, waist, legs.
    pub fn candidates(&self, c: usize) -> (r: &Vec<usize>)
        requires
            c < 5,
        ensures
            r@ == self.list(c as int),
    {
        if c == 0 {
            &self.head
        } else if c == 1 {
            &self.body
        } else if c == 2 {
            &self.hands
        } else if c == 3 {
            &self.waist
        } else {
            &self.legs
        }
    }

    /// The first slot, in the fixed order, that has no candidate: where there
    /// is one, no combination can be searched for.
    pub fn empty_part(&self) -> (r: Option<ArmorPart>)
        ensures
            r is None <==> forall|c: int| 0 <= c < 5 ==> #[trigger] self.list(c).len() > 0,
            r matches Some(p) ==> exists|c: int|
                0 <= c < 5 && p == part_at(c) && self.list(c).len() == 0 && forall|d: int|
                    0 <= d < c ==> #[trigger] self.list(d).len() > 0,
    {
        let mut c: usize = 0;
        while c < 5
            invariant
                c <= 5,
                forall|d: int| 0 <= d < c ==> #[trigger] self.list(d).len() > 0,
            decreases 5 - c,
        {
            if self.candidates(c).len() == 0 {
                return Some(ArmorPart::from_index(c));
            }
            c = c + 1;
        }
        None
    }
}

/// Every position listed for a slot lies below `n`.
proof fn lemma_eligible_below(
    items: Seq<Armor>,
    p: ArmorPart,
    target: Map<Seq<char>, int>,
    min_rarity: int,
    n: int,
)
    requires
        n <= usize::MAX,
    ensures
        forall|j: int|
            0 <= j < eligible_upto(items, p, target, min_rarity, n).len() ==> #[trigger] eligible_upto(
                items,
                p,
                target,
                min_rarity,
                n,
            )[j] < n,
    decreases n,
{
    if n > 0 {
        lemma_eligible_below(items, p, target, min_rarity, n - 1);
        let rest = eligible_upto(items, p, target, min_rarity, n - 1);
        let all = eligible_upto(items, p, target, min_rarity, n);
        assert forall|j: int| 0 <= j < all.len() implies #[trigger] all[j] < n by {
            if j < rest.len() {
                assert(all[j] == rest[j]);
            }
        }
    }
}

/// Decoration `a` comes before decoration `b` in the index: it needs a larger
/// slot, or the same and stands earlier in the input.
pub open spec fn deco_before(decos: Seq<Deco>, a: usize, b: usize) -> bool {
    decos[a as int].size > decos[b as int].size || (decos[a as int].size == decos[b as int].size
        && a < b)
}

/// The positions of the decorations whose skill `target` holds, ordered by
/// the slot size they need, largest first, ties kept in input order.
pub fn decoration_index(decos: &Vec<Deco>, target: &Skills) -> (r: Vec<usize>)
    requires
        target.wf(),
    ensures
        forall|j: int|
            0 <= j < r@.len() ==> #[trigger] r@[j] < decos@.len() && target@.contains_key(
                decos@[r@[j] as int].skill.name@,
            ),
        forall|i: int|
            0 <= i < decos@.len() && target@.contains_key(#[trigger] decos@[i].skill.name@)
                ==> r@.contains(i as usize),
        forall|j: int, l: int|
            0 <= j < l < r@.len() ==> deco_before(decos@, #[trigger] r@[j], #[trigger] r@[l]),
{
    let mut r: Vec<usize> = Vec::new();
    let mut i: usize = 0;
    while i < decos.len()
        invariant
            target.wf(),
            i <= decos@.len(),
            forall|j: int|
                0 <= j < r@.len() ==> #[trigger] r@[j] < i && target@.contains_key(
                    decos@[r@[j] as int].skill.name@,
                ),
            forall|m: int|
                0 <= m < i && target@.contains_key(#[trigger] decos@[m].skill.name@) ==> r@.contains(
                    m as usize,
                ),
            forall|j: int, l: int|
                0 <= j < l < r@.len() ==> deco_before(decos@, #[trigger] r@[j], #[trigger] r@[l]),
        decreases decos@.len() - i,
    {
        if target.has_skill(decos[i].skill.name.as_str()) {
            let size = decos[i].size;
            let mut pos: usize = 0;
            while pos < r.len() && decos[r[pos]].size >= size
                invariant
                    pos <= r@.len(),
                    i < decos@.len(),
                    size == decos@[i as int].size,
                    forall|j: int| 0 <= j < r@.len() ==> #[trigger] r@[j] < i,
                    forall|j: int| 0 <= j < pos ==> decos@[#[trigger] r@[j] as int].size >= size,
                decreases r@.len() - pos,
            {
                pos = pos + 1;
            }
            let ghost before = r@;
            r.insert(pos, i);
            proof {
                assert forall|j: int, l: int| 0 <= j < l < r@.len() implies deco_before(
                    decos@,
                    #[trigger] r@[j],
                    #[trigger] r@[l],
                ) by {
                    if l < pos {
                        assert(r@[j] == before[j] && r@[l] == before[l]);
                    } else if l == pos {
                        assert(r@[j] == before[j]);
                    } else if j == pos {
                        assert(r@[l] == before[l - 1]);
                        assert(deco_before(decos@, before[pos as int], before[l - 1]) || l - 1
                            == pos);
                    } else if j < pos {
                        assert(r@[j] == before[j] && r@[l] == before[l - 1]);
                    } else {
                        assert(r@[j] == before[j - 1] && r@[l] == before[l - 1]);
                    }
                }
                assert forall|m: int|
                    0 <= m < i + 1 && target@.contains_key(
                        #[trigger] decos@[m].skill.name@,
                    ) implies r@.contains(m as usize) by {
                    if m < i {
                        let j = choose|j: int| 0 <= j < before.len() && before[j] == m as usize;
                        if j < pos {
                            assert(r@[j] == m as usize);
                        } else {
                            assert(r@[j + 1] == m as usize);
                        }
                    } else {
                        assert(r@[pos as int] == m as usize);
                    }
                }
            }
        }
        i = i + 1;
    }
    r
}

} // verus!
