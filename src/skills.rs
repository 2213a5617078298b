use vstd::prelude::*;

verus! {

/// One named, leveled attribute as it appears on an item or a decoration.
/// Raw levels may be zero or negative; only positive ones count.
pub struct Skill {
    pub name: String,
    pub level: isize,
}

/// The level of `k` in `m`, with an absent name counting as zero.
pub open spec fn level_in(m: Map<Seq<char>, int>, k: Seq<char>) -> int {
    if m.contains_key(k) {
        m[k]
    } else {
        0
    }
}

/// `m` with `v` added to the level of `k`.
pub open spec fn add_level(m: Map<Seq<char>, int>, k: Seq<char>, v: int) -> Map<Seq<char>, int> {
    m.insert(k, level_in(m, k) + v)
}

/// The vector folded from a sequence of contributions: positive levels are
/// summed per name, the others are ignored.
pub open spec fn from_contributions(s: Seq<Skill>) -> Map<Seq<char>, int>
    decreases s.len(),
{
    if s.len() == 0 {
        Map::empty()
    } else {
        let m = from_contributions(s.drop_last());
        if s.last().level > 0 {
            add_level(m, s.last().name@, s.last().level as int)
        } else {
            m
        }
    }
}

/// The sum of all positive levels of a sequence of contributions.
pub open spec fn positive_total(s: Seq<Skill>) -> int
    decreases s.len(),
{
    if s.len() == 0 {
        0
    } else if s.last().level > 0 {
        positive_total(s.drop_last()) + s.last().level
    } else {
        positive_total(s.drop_last())
    }
}

/// Every name of either vector, mapped to the sum of its two levels.
pub open spec fn merged(a: Map<Seq<char>, int>, b: Map<Seq<char>, int>) -> Map<Seq<char>, int> {
    Map::new(
        |k: Seq<char>| a.contains_key(k) || b.contains_key(k),
        |k: Seq<char>| level_in(a, k) + level_in(b, k),
    )
}

/// `m` holds every name of `t` at a level at least as high.
pub open spec fn covers(m: Map<Seq<char>, int>, t: Map<Seq<char>, int>) -> bool {
    forall|k: Seq<char>| t.contains_key(k) ==> m.contains_key(k) && m[k] >= t[k]
}

/// The two vectors have a name in common.
pub open spec fn shares_name(a: Map<Seq<char>, int>, b: Map<Seq<char>, int>) -> bool {
    exists|k: Seq<char>| a.contains_key(k) && b.contains_key(k)
}

/// What remains of the requirement `req` once `held` is counted against it:
/// names met in full are dropped, the others keep the unmet remainder.
pub open spec fn deficit(req: Map<Seq<char>, int>, held: Map<Seq<char>, int>) -> Map<Seq<char>, int> {
    Map::new(
        |k: Seq<char>| req.contains_key(k) && level_in(held, k) < req[k],
        |k: Seq<char>| req[k] - level_in(held, k),
    )
}

/// `m` with `v` taken off the level of `k`; a name brought to zero or below
/// is dropped.
pub open spec fn lowered(m: Map<Seq<char>, int>, k: Seq<char>, v: int) -> Map<Seq<char>, int> {
    if m[k] <= v {
        m.remove(k)
    } else {
        m.insert(k, m[k] - v)
    }
}

/// All levels of the vector are positive.
pub open spec fn all_positive(m: Map<Seq<char>, int>) -> bool {
    forall|k: Seq<char>| m.contains_key(k) ==> m[k] > 0
}

/// No name is held by both vectors at levels whose sum leaves `isize`.
pub open spec fn sums_fit(a: Map<Seq<char>, int>, b: Map<Seq<char>, int>) -> bool {
    forall|k: Seq<char>| a.contains_key(k) && b.contains_key(k) ==> a[k] + b[k] <= isize::MAX
}


/// The level gathered for one name never exceeds the sum of all positive
/// levels, and every gathered level is positive.
pub proof fn lemma_level_le_total(s: Seq<Skill>, k: Seq<char>)
    ensures
        level_in(from_contributions(s), k) <= positive_total(s),
        0 <= positive_total(s),
        all_positive(from_contributions(s)),
    decreases s.len(),
{
    if s.len() > 0 {
        lemma_level_le_total(s.drop_last(), k);
        lemma_level_le_total(s.drop_last(), s.last().name@);
    }
}

/// A prefix of a contribution sequence has no larger positive total.
pub proof fn lemma_total_prefix(s: Seq<Skill>, i: int)
    requires
        0 <= i <= s.len(),
    ensures
        positive_total(s.take(i)) <= positive_total(s),
    decreases s.len(),
{
    if i < s.len() {
        assert(s.drop_last().take(i) =~= s.take(i));
        lemma_total_prefix(s.drop_last(), i);
    } else {
        assert(s.take(i) =~= s);
    }
}

/// Aggregation keeps exactly the names that have a positive contribution, and
/// each of them at a positive level.
pub proof fn lemma_contribution_names(s: Seq<Skill>)
    ensures
        forall|k: Seq<char>|
            #[trigger] from_contributions(s).contains_key(k) <==> exists|i: int|
                0 <= i < s.len() && s[i].level > 0 && s[i].name@ == k,
        all_positive(from_contributions(s)),
    decreases s.len(),
{
    if s.len() > 0 {
        let t = s.drop_last();
        lemma_contribution_names(t);
        assert forall|k: Seq<char>| #[trigger] from_contributions(s).contains_key(k) <==> exists|i: int|
            0 <= i < s.len() && s[i].level > 0 && s[i].name@ == k by {
            if from_contributions(s).contains_key(k) {
                if from_contributions(t).contains_key(k) {
                    let i = choose|i: int| 0 <= i < t.len() && t[i].level > 0 && t[i].name@ == k;
                    assert(s[i] == t[i]);
                } else {
                    assert(s[s.len() - 1].level > 0 && s[s.len() - 1].name@ == k);
                }
            }
            if exists|i: int| 0 <= i < s.len() && s[i].level > 0 && s[i].name@ == k {
                let i = choose|i: int| 0 <= i < s.len() && s[i].level > 0 && s[i].name@ == k;
                if i < s.len() - 1 {
                    assert(t[i] == s[i]);
                }
            }
        }
        lemma_level_le_total(s, s.last().name@);
    }
}

/// The sum of the positive levels contributed under the name `k`.
pub open spec fn positive_sum_of(s: Seq<Skill>, k: Seq<char>) -> int
    decreases s.len(),
{
    if s.len() == 0 {
        0
    } else if s.last().level > 0 && s.last().name@ == k {
        positive_sum_of(s.drop_last(), k) + s.last().level
    } else {
        positive_sum_of(s.drop_last(), k)
    }
}

/// Aggregation gives each name the sum of its positive contributions: a
/// non-positive level is never subtracted, and repeated names add up.
pub proof fn lemma_level_is_positive_sum(s: Seq<Skill>, k: Seq<char>)
    ensures
        level_in(from_contributions(s), k) == positive_sum_of(s, k),
    decreases s.len(),
{
    if s.len() > 0 {
        lemma_level_is_positive_sum(s.drop_last(), k);
    }
}

/// A prefix of a contribution sequence gives no name a larger positive sum,
/// and no name's positive sum exceeds the positive total.
pub proof fn lemma_sum_prefix(s: Seq<Skill>, k: Seq<char>, i: int)
    requires
        0 <= i <= s.len(),
    ensures
        positive_sum_of(s.take(i), k) <= positive_sum_of(s, k),
        0 <= positive_sum_of(s, k) <= positive_total(s),
    decreases s.len(),
{
    if s.len() > 0 {
        if i < s.len() {
            assert(s.drop_last().take(i) =~= s.take(i));
            lemma_sum_prefix(s.drop_last(), k, i);
        } else {
            assert(s.take(i) =~= s);
            lemma_sum_prefix(s.drop_last(), k, 0);
        }
    }
}

/// Merging is commutative.
pub proof fn lemma_merge_commutative(a: Map<Seq<char>, int>, b: Map<Seq<char>, int>)
    ensures
        merged(a, b) == merged(b, a),
{
    assert(merged(a, b) =~= merged(b, a));
}

/// Merging is associative.
pub proof fn lemma_merge_associative(
    a: Map<Seq<char>, int>,
    b: Map<Seq<char>, int>,
    c: Map<Seq<char>, int>,
)
    ensures
        merged(merged(a, b), c) == merged(a, merged(b, c)),
{
    assert(merged(merged(a, b), c) =~= merged(a, merged(b, c)));
}

/// A skill vector: attribute names mapped to positive levels.
pub struct Skills {
    entries: Vec<Skill>,
    levels: Ghost<Map<Seq<char>, int>>,
}

impl View for Skills {
    type V = Map<Seq<char>, int>;

    closed spec fn view(&self) -> Map<Seq<char>, int> {
        self.levels@
    }
}

impl Skills {
    /// The entries list each name of the vector once, at its positive level.
    pub closed spec fn wf(&self) -> bool {
        &&& forall|i: int|
            0 <= i < self.entries@.len() ==> (#[trigger] self.entries@[i]).level > 0
                && self.levels@.contains_key(self.entries@[i].name@)
                && self.levels@[self.entries@[i].name@] == self.entries@[i].level
        &&& forall|i: int, j: int|
            0 <= i < j < self.entries@.len() ==> self.entries@[i].name@
                != self.entries@[j].name@
        &&& forall|k: Seq<char>|
            #[trigger] self.levels@.contains_key(k) ==> exists|i: int|
                0 <= i < self.entries@.len() && self.entries@[i].name@ == k
    }

    /// The empty vector.
    pub fn new() -> (r: Self)
        ensures
            r.wf(),
            r@ == Map::<Seq<char>, int>::empty(),
    {
        Skills { entries: Vec::new(), levels: Ghost(Map::empty()) }
    }

    /// The number of names in the vector.
    pub fn len(&self) -> (r: usize)
        requires
            self.wf(),
        ensures
            r == self@.dom().len(),
    {
        proof {
            self.lemma_dom_is_names();
        }
        self.entries.len()
    }

    /// The vector holds no name.
    pub fn is_empty(&self) -> (r: bool)
        requires
            self.wf(),
        ensures
            r == (self@ == Map::<Seq<char>, int>::empty()),
    {
        if self.entries.len() == 0 {
            assert(self@ =~= Map::<Seq<char>, int>::empty());
            true
        } else {
            assert(self@.contains_key(self.entries@[0].name@));
            false
        }
    }

    proof fn lemma_dom_is_names(&self)
        requires
            self.wf(),
        ensures
            self@.dom().finite(),
            self@.dom().len() == self.entries@.len(),
    {
        let names = self.entries@.map_values(|e: Skill| e.name@);
        assert forall|i: int, j: int| 0 <= i < j < names.len() implies names[i] != names[j] by {}
        assert(names.no_duplicates());
        names.unique_seq_to_set();
        assert(self@.dom() =~= names.to_set()) by {
            assert forall|k: Seq<char>| self@.dom().contains(k) implies names.to_set().contains(k) by {
                let i = choose|i: int| 0 <= i < self.entries@.len() && self.entries@[i].name@ == k;
                assert(names[i] == k);
            }
            assert forall|k: Seq<char>| names.to_set().contains(k) implies self@.dom().contains(k) by {
                let i = choose|i: int| 0 <= i < names.len() && names[i] == k;
                assert(self@.contains_key(self.entries@[i].name@));
            }
        }
    }

    /// The position of the entry named `name`, if the vector holds it.
    fn find(&self, name: &String) -> (r: Option<usize>)
        requires
            self.wf(),
        ensures
            r is None ==> !self@.contains_key(name@),
            r matches Some(i) ==> i < self.entries@.len() && self.entries@[i as int].name@
                == name@,
    {
        let mut i: usize = 0;
        while i < self.entries.len()
            invariant
                self.wf(),
                i <= self.entries@.len(),
                forall|j: int| 0 <= j < i ==> self.entries@[j].name@ != name@,
            decreases self.entries@.len() - i,
        {
            if self.entries[i].name == *name {
                return Some(i);
            }
            i = i + 1;
        }
        proof {
            if self@.contains_key(name@) {
                let j = choose|j: int| 0 <= j < self.entries@.len() && self.entries@[j].name@ == name@;
                assert(self.entries@[j].name@ != name@);
            }
        }
        None
    }

    /// The level held for `name`, zero where the vector does not hold it.
    pub fn level_of(&self, name: &String) -> (r: isize)
        requires
            self.wf(),
        ensures
            r == level_in(self@, name@),
    {
        match self.find(name) {
            Some(i) => self.entries[i].level,
            None => 0,
        }
    }

    /// Adds `level` to the level held for `name`.
    fn add(&mut self, name: &String, level: isize)
        requires
            old(self).wf(),
            level > 0,
            level_in(old(self)@, name@) + level <= isize::MAX,
        ensures
            final(self).wf(),
            final(self)@ == add_level(old(self)@, name@, level as int),
    {
        match self.find(name) {
            Some(i) => {
                let cur = self.entries[i].level;
                let entry = Skill { name: name.clone(), level: cur + level };
                self.entries.set(i, entry);
                self.levels = Ghost(add_level(self.levels@, name@, level as int));
                proof {
                    assert forall|j: int| 0 <= j < self.entries@.len() implies self.entries@[j].name@
                        == old(self).entries@[j].name@ by {}
                    assert forall|j: int| 0 <= j < self.entries@.len() implies (#[trigger] self.entries@[j]).level > 0
                        && self.levels@.contains_key(self.entries@[j].name@)
                        && self.levels@[self.entries@[j].name@] == self.entries@[j].level by {
                        if j != i {
                            assert(old(self).levels@.contains_key(old(self).entries@[j].name@));
                        }
                    }
                    assert forall|k: Seq<char>| #[trigger]
                        self.levels@.contains_key(k) implies exists|j: int|
                        0 <= j < self.entries@.len() && self.entries@[j].name@ == k by {
                        if k != name@ {
                            let j = choose|j: int|
                                0 <= j < old(self).entries@.len() && old(self).entries@[j].name@ == k;
                            assert(self.entries@[j].name@ == k);
                        } else {
                            assert(self.entries@[i as int].name@ == k);
                        }
                    }
                }
            },
            None => {
                self.entries.push(Skill { name: name.clone(), level });
                self.levels = Ghost(add_level(self.levels@, name@, level as int));
                proof {
                    let n = self.entries@.len() - 1;
                    assert(self.entries@[n].name@ == name@);
                    assert forall|j: int| 0 <= j < self.entries@.len() implies (#[trigger] self.entries@[j]).level > 0
                        && self.levels@.contains_key(self.entries@[j].name@)
                        && self.levels@[self.entries@[j].name@] == self.entries@[j].level by {
                        if j < n {
                            assert(old(self).levels@.contains_key(old(self).entries@[j].name@));
                        }
                    }
                    assert forall|x: int, y: int| 0 <= x < y < self.entries@.len() implies
                        self.entries@[x].name@ != self.entries@[y].name@ by {
                        if y == n {
                            assert(old(self).levels@.contains_key(old(self).entries@[x].name@));
                        }
                    }
                    assert forall|k: Seq<char>| #[trigger]
                        self.levels@.contains_key(k) implies exists|j: int|
                        0 <= j < self.entries@.len() && self.entries@[j].name@ == k by {
                        if k != name@ {
                            let j = choose|j: int|
                                0 <= j < old(self).entries@.len() && old(self).entries@[j].name@ == k;
                            assert(self.entries@[j].name@ == k);
                        } else {
                            assert(self.entries@[n].name@ == k);
                        }
                    }
                }
            },
        }
    }

    /// The names of the first `i` entries.
    closed spec fn names_upto(&self, i: int) -> Set<Seq<char>> {
        Set::new(|k: Seq<char>| exists|j: int| 0 <= j < i && self.entries@[j].name@ == k)
    }

    proof fn lemma_names_upto(&self, i: int)
        requires
            self.wf(),
            0 <= i < self.entries@.len(),
        ensures
            self.names_upto(i + 1) == self.names_upto(i).insert(self.entries@[i].name@),
            !self.names_upto(i).contains(self.entries@[i].name@),
            self@.contains_key(self.entries@[i].name@),
            self@[self.entries@[i].name@] == self.entries@[i].level,
            self.entries@[i].level > 0,
    {
        let _ = self.entries@[i];
        assert(self.names_upto(i + 1) =~= self.names_upto(i).insert(self.entries@[i].name@)) by {
            assert(self.entries@[i].name@ == self.entries@[i].name@);
        }
    }

    proof fn lemma_names_all(&self)
        requires
            self.wf(),
        ensures
            self.names_upto(self.entries@.len() as int) == self@.dom(),
    {
        assert(self.names_upto(self.entries@.len() as int) =~= self@.dom()) by {
            assert forall|k: Seq<char>| self@.dom().contains(k) implies self.names_upto(
                self.entries@.len() as int,
            ).contains(k) by {
                let j = choose|j: int| 0 <= j < self.entries@.len() && self.entries@[j].name@ == k;
            }
            assert forall|k: Seq<char>| self.names_upto(self.entries@.len() as int).contains(k) implies self@.dom().contains(k) by {
                let j = choose|j: int| 0 <= j < self.entries@.len() && self.entries@[j].name@ == k;
                let _ = self.entries@[j];
            }
        }
    }

    /// Builds the vector of a sequence of contributions: each positive level is
    /// added to the level already gathered for its name; the rest are ignored.
    pub fn from_skill_vec(skills: &Vec<Skill>) -> (r: Self)
        requires
            forall|k: Seq<char>| positive_sum_of(skills@, k) <= isize::MAX,
        ensures
            r.wf(),
            r@ == from_contributions(skills@),
    {
        let mut r = Skills::new();
        let mut i: usize = 0;
        while i < skills.len()
            invariant
                i <= skills@.len(),
                r.wf(),
                r@ == from_contributions(skills@.take(i as int)),
                forall|k: Seq<char>| positive_sum_of(skills@, k) <= isize::MAX,
            decreases skills@.len() - i,
        {
            proof {
                let next = skills@.take(i + 1);
                assert(next.drop_last() =~= skills@.take(i as int));
                lemma_level_is_positive_sum(next, skills@[i as int].name@);
                lemma_sum_prefix(skills@, skills@[i as int].name@, i + 1);
            }
            if skills[i].level > 0 {
                r.add(&skills[i].name, skills[i].level);
            }
            i = i + 1;
        }
        assert(skills@.take(skills@.len() as int) =~= skills@);
        r
    }

    /// A copy of the vector.
    pub fn duplicate(&self) -> (r: Self)
        requires
            self.wf(),
        ensures
            r.wf(),
            r@ == self@,
    {
        let mut r = Skills::new();
        let mut i: usize = 0;
        while i < self.entries.len()
            invariant
                self.wf(),
                r.wf(),
                i <= self.entries@.len(),
                r@ == self@.restrict(self.names_upto(i as int)),
            decreases self.entries@.len() - i,
        {
            proof {
                self.lemma_names_upto(i as int);
            }
            r.add(&self.entries[i].name, self.entries[i].level);
            proof {
                assert(r@ =~= self@.restrict(self.names_upto(i + 1)));
            }
            i = i + 1;
        }
        proof {
            self.lemma_names_all();
            assert(r@ =~= self@);
        }
        r
    }

    /// Adds every level of `other` to this vector; names of `other` not held
    /// yet are taken over.
    pub fn merge(&mut self, other: &Self) -> (r: &mut Self)
        requires
            old(self).wf(),
            other.wf(),
            sums_fit(old(self)@, other@),
        ensures
            r.wf(),
            r@ == merged(old(self)@, other@),
            *final(self) == *final(r),
    {
        let ghost start = self@;
        let mut i: usize = 0;
        while i < other.entries.len()
            invariant
                other.wf(),
                self.wf(),
                i <= other.entries@.len(),
                sums_fit(start, other@),
                self@ == merged(start, other@.restrict(other.names_upto(i as int))),
            decreases other.entries@.len() - i,
        {
            proof {
                other.lemma_names_upto(i as int);
            }
            self.add(&other.entries[i].name, other.entries[i].level);
            proof {
                assert(self@ =~= merged(start, other@.restrict(other.names_upto(i + 1))));
            }
            i = i + 1;
        }
        proof {
            other.lemma_names_all();
            assert(other@.restrict(other@.dom()) =~= other@);
        }
        self
    }

    /// Every name of `other` is held here at a level at least as high.
    pub fn is_superset_of(&self, other: &Self) -> (r: bool)
        requires
            self.wf(),
            other.wf(),
        ensures
            r == covers(self@, other@),
    {
        let mut i: usize = 0;
        while i < other.entries.len()
            invariant
                self.wf(),
                other.wf(),
                i <= other.entries@.len(),
                forall|k: Seq<char>| #[trigger]
                    other.names_upto(i as int).contains(k) ==> self@.contains_key(k) && self@[k]
                        >= other@[k],
            decreases other.entries@.len() - i,
        {
            proof {
                other.lemma_names_upto(i as int);
            }
            let have = self.level_of(&other.entries[i].name);
            if have < other.entries[i].level {
                return false;
            }
            i = i + 1;
        }
        proof {
            other.lemma_names_all();
            assert forall|k: Seq<char>| other@.contains_key(k) implies self@.contains_key(k)
                && self@[k] >= other@[k] by {
                assert(other.names_upto(other.entries@.len() as int).contains(k));
            }
        }
        true
    }

    /// The two vectors hold a name in common, whatever the levels.
    pub fn has_intersection(&self, other: &Self) -> (r: bool)
        requires
            self.wf(),
            other.wf(),
        ensures
            r == shares_name(self@, other@),
    {
        let mut i: usize = 0;
        while i < self.entries.len()
            invariant
                self.wf(),
                other.wf(),
                i <= self.entries@.len(),
                forall|k: Seq<char>| #[trigger]
                    self.names_upto(i as int).contains(k) ==> !other@.contains_key(k),
            decreases self.entries@.len() - i,
        {
            proof {
                self.lemma_names_upto(i as int);
            }
            if let Some(_) = other.find(&self.entries[i].name) {
                return true;
            }
            i = i + 1;
        }
        proof {
            self.lemma_names_all();
            assert forall|k: Seq<char>| self@.contains_key(k) implies !other@.contains_key(k) by {
                assert(self.names_upto(self.entries@.len() as int).contains(k));
            }
        }
        false
    }

    /// Counts `other` against this vector taken as a requirement: a name met
    /// in full is dropped, any other keeps what is still missing.
    pub fn subtract(&mut self, other: &Self) -> (r: &mut Self)
        requires
            old(self).wf(),
            other.wf(),
        ensures
            r.wf(),
            r@ == deficit(old(self)@, other@),
            *final(self) == *final(r),
    {
        let mut rest = Skills::new();
        let mut i: usize = 0;
        while i < self.entries.len()
            invariant
                self.wf(),
                other.wf(),
                rest.wf(),
                i <= self.entries@.len(),
                rest@ == deficit(self@, other@).restrict(self.names_upto(i as int)),
            decreases self.entries@.len() - i,
        {
            proof {
                self.lemma_names_upto(i as int);
            }
            let held = other.level_of(&self.entries[i].name);
            if held < self.entries[i].level {
                rest.add(&self.entries[i].name, self.entries[i].level - held);
            }
            proof {
                assert(rest@ =~= deficit(self@, other@).restrict(self.names_upto(i + 1)));
            }
            i = i + 1;
        }
        proof {
            self.lemma_names_all();
            assert(rest@ =~= deficit(self@, other@));
        }
        *self = rest;
        self
    }

    /// Takes `level` off the level held for `name`, dropping the name where
    /// nothing remains.
    pub fn lower(&mut self, name: &String, level: isize)
        requires
            old(self).wf(),
            old(self)@.contains_key(name@),
            level > 0,
        ensures
            final(self).wf(),
            final(self)@ == lowered(old(self)@, name@, level as int),
    {
        let i = match self.find(name) {
            Some(i) => i,
            None => {
                return;
            },
        };
        let cur = self.entries[i].level;
        if cur <= level {
            let ghost before = self.entries@;
            self.entries.remove(i);
            self.levels = Ghost(self.levels@.remove(name@));
            proof {
                assert forall|j: int| 0 <= j < self.entries@.len() implies (#[trigger] self.entries@[j]).level > 0
                    && self.levels@.contains_key(self.entries@[j].name@)
                    && self.levels@[self.entries@[j].name@] == self.entries@[j].level by {
                    let o = if j < i { j } else { j + 1 };
                    assert(self.entries@[j] == before[o]);
                    let _ = before[o];
                    let _ = before[i as int];
                }
                assert forall|x: int, y: int| 0 <= x < y < self.entries@.len() implies
                    self.entries@[x].name@ != self.entries@[y].name@ by {
                    let ox = if x < i { x } else { x + 1 };
                    let oy = if y < i { y } else { y + 1 };
                    assert(self.entries@[x] == before[ox]);
                    assert(self.entries@[y] == before[oy]);
                }
                assert forall|k: Seq<char>| #[trigger]
                    self.levels@.contains_key(k) implies exists|j: int|
                    0 <= j < self.entries@.len() && self.entries@[j].name@ == k by {
                    let o = choose|o: int| 0 <= o < before.len() && before[o].name@ == k;
                    if o < i {
                        assert(self.entries@[o] == before[o]);
                    } else {
                        assert(o != i);
                        assert(self.entries@[o - 1] == before[o]);
                    }
                }
            }
        } else {
            let entry = Skill { name: name.clone(), level: cur - level };
            self.entries.set(i, entry);
            self.levels = Ghost(self.levels@.insert(name@, cur - level));
            proof {
                assert forall|j: int| 0 <= j < self.entries@.len() implies self.entries@[j].name@
                    == old(self).entries@[j].name@ by {}
                assert forall|j: int| 0 <= j < self.entries@.len() implies (#[trigger] self.entries@[j]).level > 0
                    && self.levels@.contains_key(self.entries@[j].name@)
                    && self.levels@[self.entries@[j].name@] == self.entries@[j].level by {
                    let _ = old(self).entries@[j];
                }
                assert forall|k: Seq<char>| #[trigger]
                    self.levels@.contains_key(k) implies exists|j: int|
                    0 <= j < self.entries@.len() && self.entries@[j].name@ == k by {
                    let o = choose|o: int| 0 <= o < old(self).entries@.len() && old(self).entries@[o].name@ == k;
                    assert(self.entries@[o].name@ == k);
                }
            }
        }
    }

    /// The vector holds `name`.
    pub fn has_skill(&self, name: &str) -> (r: bool)
        requires
            self.wf(),
        ensures
            r == self@.contains_key(name@),
    {
        let owned = name.to_owned();
        self.find(&owned).is_some()
    }
}

} // verus!
