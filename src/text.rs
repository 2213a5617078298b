use vstd::prelude::*;
use crate::skills::Skill;

verus! {

/// The position of the last `c` in `s`; -1 where there is none.
pub open spec fn last_index_of(s: Seq<char>, c: char) -> int
    decreases s.len(),
{
    if s.len() == 0 {
        -1
    } else if s.last() == c {
        s.len() - 1
    } else {
        last_index_of(s.drop_last(), c)
    }
}

/// The position of the first `c` in `s`; -1 where there is none.
pub open spec fn first_index_of(s: Seq<char>, c: char) -> int
    decreases s.len(),
{
    if s.len() == 0 {
        -1
    } else if s[0] == c {
        0
    } else if first_index_of(s.skip(1), c) < 0 {
        -1
    } else {
        first_index_of(s.skip(1), c) + 1
    }
}

/// `s` with every leading copy of the non-empty `p` removed, one after another.
pub open spec fn strip_prefixes(s: Seq<char>, p: Seq<char>) -> Seq<char>
    decreases s.len(),
{
    if p.len() > 0 && p.len() <= s.len() && s.take(p.len() as int) == p {
        strip_prefixes(s.skip(p.len() as int), p)
    } else {
        s
    }
}

/// The value of a run of decimal digits.
pub open spec fn digits_value(d: Seq<char>) -> int
    decreases d.len(),
{
    if d.len() == 0 {
        0
    } else {
        digits_value(d.drop_last()) * 10 + (d.last() as int - '0' as int)
    }
}

/// Every character is a decimal digit.
pub open spec fn all_digits(d: Seq<char>) -> bool {
    forall|i: int| 0 <= i < d.len() ==> '0' <= #[trigger] d[i] <= '9'
}

/// The signed value of `d` where it is a non-empty run of digits and the value
/// fits in `isize`.
pub open spec fn signed_digits(d: Seq<char>, negative: bool) -> Option<int> {
    if d.len() == 0 || !all_digits(d) {
        None
    } else {
        let v = if negative {
            -digits_value(d)
        } else {
            digits_value(d)
        };
        if isize::MIN <= v <= isize::MAX {
            Some(v)
        } else {
            None
        }
    }
}

/// The `isize` written in `s` in decimal: an optional sign, then one or more
/// digits, nothing else.
pub open spec fn decimal(s: Seq<char>) -> Option<int> {
    if s.len() > 0 && s[0] == '-' {
        signed_digits(s.skip(1), true)
    } else if s.len() > 0 && s[0] == '+' {
        signed_digits(s.skip(1), false)
    } else {
        signed_digits(s, false)
    }
}

/// `s` without leading and trailing white space.
pub uninterp spec fn trimmed(s: Seq<char>) -> Seq<char>;

/// The skill written as `<name> <level>` in `text`: the part after the last
/// space, with any leading `Lv` removed, is the level; the part before it,
/// trimmed, is the name.
pub open spec fn skill_of(text: Seq<char>) -> Option<(Seq<char>, int)> {
    let t = trimmed(text);
    let i = last_index_of(t, ' ');
    if i < 0 {
        None
    } else {
        match decimal(strip_prefixes(t.skip(i + 1), "Lv"@)) {
            Some(v) => Some((trimmed(t.take(i)), v)),
            None => None,
        }
    }
}

/// The slot size encoded in an image path such as `.../deco2.png`: the file
/// name after the last `/`, up to its first `.`, with any leading `deco`
/// removed, read as a number.
pub open spec fn slot_size_of(src: Seq<char>) -> Option<int> {
    let i = last_index_of(src, '/');
    let file = if i < 0 {
        Seq::empty()
    } else {
        src.skip(i + 1)
    };
    let j = first_index_of(file, '.');
    let stem = if j < 0 {
        Seq::empty()
    } else {
        file.take(j)
    };
    decimal(strip_prefixes(stem, "deco"@))
}

/// Relies on `str::trim`: the slice without leading and trailing white space;
/// the result depends on the characters alone.
#[verifier::external_body]
fn trim_str(s: &str) -> (r: &str)
    ensures
        r@ == trimmed(s@),
{
    s.trim()
}

/// Relies on `str::rsplit_once` with a `char` pattern: the parts before and
/// after the last occurrence of `c`, or `None` where `c` does not occur.
#[verifier::external_body]
fn split_at_last(s: &str, c: char) -> (r: Option<(&str, &str)>)
    ensures
        r is None <==> last_index_of(s@, c) < 0,
        r matches Some(p) ==> p.0@ == s@.take(last_index_of(s@, c)) && p.1@ == s@.skip(
            last_index_of(s@, c) + 1,
        ),
{
    s.rsplit_once(c)
}

/// Relies on `str::split_once` with a `char` pattern: the parts before and
/// after the first occurrence of `c`, or `None` where `c` does not occur.
#[verifier::external_body]
fn split_at_first(s: &str, c: char) -> (r: Option<(&str, &str)>)
    ensures
        r is None <==> first_index_of(s@, c) < 0,
        r matches Some(p) ==> p.0@ == s@.take(first_index_of(s@, c)) && p.1@ == s@.skip(
            first_index_of(s@, c) + 1,
        ),
{
    s.split_once(c)
}

/// Relies on `str::trim_start_matches` with a string pattern: every prefix
/// equal to `p` removed, repeatedly.
#[verifier::external_body]
fn strip_leading<'a>(s: &'a str, p: &str) -> (r: &'a str)
    requires
        p@.len() > 0,
    ensures
        r@ == strip_prefixes(s@, p@),
{
    s.trim_start_matches(p)
}

/// Relies on `str::parse::<isize>`: an optional `+` or `-`, then decimal
/// digits only, within the range of `isize`; an error otherwise.
#[verifier::external_body]
fn parse_isize(s: &str) -> (r: Option<isize>)
    ensures
        r matches Some(v) ==> decimal(s@) == Some(v as int),
        r is None ==> decimal(s@) is None,
{
    s.parse::<isize>().ok()
}

/// Reads a skill written as `<name> Lv<level>`; `None` where the text has no
/// space or the level is not a number.
pub fn parse_skill(text: &str) -> (r: Option<Skill>)
    ensures
        r is None <==> skill_of(text@) is None,
        r matches Some(k) ==> skill_of(text@) == Some((k.name@, k.level as int)),
{
    let t = trim_str(text);
    match split_at_last(t, ' ') {
        None => None,
        Some((name, level)) => {
            proof {
                reveal_strlit("Lv");
            }
            let digits = strip_leading(level, "Lv");
            match parse_isize(digits) {
                Some(v) => Some(Skill { name: trim_str(name).to_owned(), level: v }),
                None => None,
            }
        },
    }
}

/// Reads the slot size from a slot image path such as `.../deco2.png`; `None`
/// where the path holds no number there.
pub fn parse_slot_size(src: &str) -> (r: Option<isize>)
    ensures
        r is None <==> slot_size_of(src@) is None,
        r matches Some(v) ==> slot_size_of(src@) == Some(v as int),
{
    proof {
        reveal_strlit("");
        reveal_strlit("deco");
    }
    let file = match split_at_last(src, '/') {
        Some((_, f)) => f,
        None => "",
    };
    let stem = match split_at_first(file, '.') {
        Some((s, _)) => s,
        None => "",
    };
    parse_isize(strip_leading(stem, "deco"))
}

} // verus!
