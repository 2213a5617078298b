use vstd::prelude::*;

verus! {

/// The body slot an item is worn in. `Unknown` marks an item that no keyword
/// has placed yet.
#[derive(PartialEq, Eq, Structural, Clone, Copy, Debug, Hash)]
pub enum ArmorPart {
    Head,
    Body,
    Hands,
    Waist,
    Legs,
    Unknown,
}

/// The slot checked at position `c` of the fixed order head, body, hands,
/// waist, legs.
pub open spec fn part_at(c: int) -> ArmorPart {
    if c == 0 {
        ArmorPart::Head
    } else if c == 1 {
        ArmorPart::Body
    } else if c == 2 {
        ArmorPart::Hands
    } else if c == 3 {
        ArmorPart::Waist
    } else if c == 4 {
        ArmorPart::Legs
    } else {
        ArmorPart::Unknown
    }
}

/// `p` occurs in `s` as a contiguous run of characters.
pub open spec fn is_substring(p: Seq<char>, s: Seq<char>) -> bool {
    exists|i: int| 0 <= i && i + p.len() <= s.len() && #[trigger] s.subrange(i, i + p.len()) == p
}

/// Some keyword of `words` occurs in `s`.
pub open spec fn matches_any(words: Seq<Seq<char>>, s: Seq<char>) -> bool {
    exists|i: int| 0 <= i < words.len() && is_substring(words[i], s)
}

/// The character sequences of a list of strings.
pub open spec fn words(v: Seq<String>) -> Seq<Seq<char>> {
    v.map_values(|w: String| w@)
}

/// The slot of the first category, in the fixed order, one of whose keywords
/// occurs in `s`; `Unknown` where none does.
pub open spec fn classify(kw: PartKeywords, s: Seq<char>) -> ArmorPart {
    if matches_any(kw.words_for(ArmorPart::Head), s) {
        ArmorPart::Head
    } else if matches_any(kw.words_for(ArmorPart::Body), s) {
        ArmorPart::Body
    } else if matches_any(kw.words_for(ArmorPart::Hands), s) {
        ArmorPart::Hands
    } else if matches_any(kw.words_for(ArmorPart::Waist), s) {
        ArmorPart::Waist
    } else if matches_any(kw.words_for(ArmorPart::Legs), s) {
        ArmorPart::Legs
    } else {
        ArmorPart::Unknown
    }
}

/// Relies on `str::contains` with a string pattern: true exactly where `pat`
/// occurs in `s` as a contiguous run.
#[verifier::external_body]
fn str_contains(s: &str, pat: &str) -> (r: bool)
    ensures
        r == is_substring(pat@, s@),
{
    s.contains(pat)
}

/// Some keyword of `list` occurs in `s`.
fn any_keyword_in(list: &Vec<String>, s: &str) -> (r: bool)
    ensures
        r == matches_any(words(list@), s@),
{
    let mut i: usize = 0;
    while i < list.len()
        invariant
            i <= list@.len(),
            forall|j: int| 0 <= j < i ==> !is_substring(#[trigger] list@[j]@, s@),
        decreases list@.len() - i,
    {
        if str_contains(s, list[i].as_str()) {
            assert(words(list@)[i as int] == list@[i as int]@);
            return true;
        }
        i = i + 1;
    }
    proof {
        if matches_any(words(list@), s@) {
            let j = choose|j: int| 0 <= j < words(list@).len() && is_substring(words(list@)[j], s@);
            assert(words(list@)[j] == list@[j]@);
        }
    }
    false
}

impl ArmorPart {
    /// The slot at position `c` of the fixed order; `Unknown` past the fifth.
    pub fn from_index(c: usize) -> (r: ArmorPart)
        ensures
            r == part_at(c as int),
    {
        if c == 0 {
            ArmorPart::Head
        } else if c == 1 {
            ArmorPart::Body
        } else if c == 2 {
            ArmorPart::Hands
        } else if c == 3 {
            ArmorPart::Waist
        } else if c == 4 {
            ArmorPart::Legs
        } else {
            ArmorPart::Unknown
        }
    }

    /// The slot an operator picked from the numbered menu 1 to 5; any other
    /// answer declines and gives `Unknown`.
    pub fn from_choice(n: usize) -> (r: ArmorPart)
        ensures
            1 <= n <= 5 ==> r == part_at(n - 1),
            !(1 <= n <= 5) ==> r == ArmorPart::Unknown,
    {
        if n >= 1 && n <= 5 {
            ArmorPart::from_index(n - 1)
        } else {
            ArmorPart::Unknown
        }
    }

    /// The slot whose keywords first occur in `s`, in the order head, body,
    /// hands, waist, legs; `Unknown` where no keyword occurs.
    pub fn from_name(keywords: &PartKeywords, s: &str) -> (r: ArmorPart)
        ensures
            r == classify(*keywords, s@),
    {
        if any_keyword_in(&keywords.head, s) {
            return ArmorPart::Head;
        }
        if any_keyword_in(&keywords.body, s) {
            return ArmorPart::Body;
        }
        if any_keyword_in(&keywords.hands, s) {
            return ArmorPart::Hands;
        }
        if any_keyword_in(&keywords.waist, s) {
            return ArmorPart::Waist;
        }
        if any_keyword_in(&keywords.legs, s) {
            return ArmorPart::Legs;
        }
        ArmorPart::Unknown
    }

    /// The lower-case name of the slot.
    pub fn as_str(&self) -> (r: &'static str)
        ensures
            *self == ArmorPart::Head ==> r@ == "head"@,
            *self == ArmorPart::Body ==> r@ == "body"@,
            *self == ArmorPart::Hands ==> r@ == "hands"@,
            *self == ArmorPart::Waist ==> r@ == "waist"@,
            *self == ArmorPart::Legs ==> r@ == "legs"@,
            *self == ArmorPart::Unknown ==> r@ == "unknown"@,
    {
        match self {
            ArmorPart::Head => "head",
            ArmorPart::Body => "body",
            ArmorPart::Hands => "hands",
            ArmorPart::Waist => "waist",
            ArmorPart::Legs => "legs",
            ArmorPart::Unknown => "unknown",
        }
    }
}

/// The keyword dictionary: for each slot, the substrings that place an item
/// name in it.
pub struct PartKeywords {
    pub head: Vec<String>,
    pub body: Vec<String>,
    pub hands: Vec<String>,
    pub waist: Vec<String>,
    pub legs: Vec<String>,
}

impl PartKeywords {
    /// The keywords of slot `p`; none for `Unknown`.
    pub open spec fn words_for(&self, p: ArmorPart) -> Seq<Seq<char>> {
        match p {
            ArmorPart::Head => words(self.head@),
            ArmorPart::Body => words(self.body@),
            ArmorPart::Hands => words(self.hands@),
            ArmorPart::Waist => words(self.waist@),
            ArmorPart::Legs => words(self.legs@),
            ArmorPart::Unknown => Seq::empty(),
        }
    }

    /// A dictionary with no keyword.
    pub fn new() -> (r: Self)
        ensures
            forall|p: ArmorPart| r.words_for(p).len() == 0,
    {
        PartKeywords {
            head: Vec::new(),
            body: Vec::new(),
            hands: Vec::new(),
            waist: Vec::new(),
            legs: Vec::new(),
        }
    }

    /// Appends `keyword` to the keywords of `part`; `Unknown` changes nothing.
    pub fn add_keyword(&mut self, part: &ArmorPart, keyword: &str)
        ensures
            forall|p: ArmorPart|
                #[trigger] final(self).words_for(p) == if p == *part && p != ArmorPart::Unknown {
                    old(self).words_for(p).push(keyword@)
                } else {
                    old(self).words_for(p)
                },
    {
        let ghost start = *self;
        match part {
            ArmorPart::Head => self.head.push(keyword.to_owned()),
            ArmorPart::Body => self.body.push(keyword.to_owned()),
            ArmorPart::Hands => self.hands.push(keyword.to_owned()),
            ArmorPart::Waist => self.waist.push(keyword.to_owned()),
            ArmorPart::Legs => self.legs.push(keyword.to_owned()),
            ArmorPart::Unknown => {},
        }
        proof {
            assert(words(self.head@) =~= if *part == ArmorPart::Head {
                words(start.head@).push(keyword@)
            } else {
                words(start.head@)
            });
            assert(words(self.body@) =~= if *part == ArmorPart::Body {
                words(start.body@).push(keyword@)
            } else {
                words(start.body@)
            });
            assert(words(self.hands@) =~= if *part == ArmorPart::Hands {
                words(start.hands@).push(keyword@)
            } else {
                words(start.hands@)
            });
            assert(words(self.waist@) =~= if *part == ArmorPart::Waist {
                words(start.waist@).push(keyword@)
            } else {
                words(start.waist@)
            });
            assert(words(self.legs@) =~= if *part == ArmorPart::Legs {
                words(start.legs@).push(keyword@)
            } else {
                words(start.legs@)
            });
        }
    }
}

} // verus!
