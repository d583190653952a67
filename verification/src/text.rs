//! Text helpers: lists of strings, decimal numerals and slugs.

use vstd::prelude::*;
use vstd::string::*;

verus! {

/// The characters of each string of a list.
pub open spec fn texts(list: Seq<String>) -> Seq<Seq<char>> {
    list.map_values(|s: String| s@)
}

/// The characters of each slice of a list.
pub open spec fn slices(list: Seq<&str>) -> Seq<Seq<char>> {
    list.map_values(|s: &str| s@)
}

/// The characters of a string that may be there.
pub open spec fn optional(text: Option<String>) -> Option<Seq<char>> {
    match text {
        Some(s) => Some(s@),
        None => None,
    }
}

/// Copies each slice into a string of its own.
pub fn owned(list: &Vec<&str>) -> (r: Vec<String>)
    ensures
        texts(r@) == slices(list@),
{
    let mut r: Vec<String> = Vec::new();
    let mut i: usize = 0;
    while i < list.len()
        invariant
            i <= list@.len(),
            texts(r@) == slices(list@).take(i as int),
        decreases list@.len() - i,
    {
        let s: String = list[i].to_owned();
        let ghost before = r@;
        r.push(s);
        proof {
            assert(texts(r@) =~= texts(before).push(s@));
            assert(slices(list@).take(i + 1) =~= slices(list@).take(i as int).push(list@[i as int]@));
        }
        i = i + 1;
    }
    assert(slices(list@).take(i as int) =~= slices(list@));
    r
}

/// Copies a list of strings.
pub fn copied(list: &Vec<String>) -> (r: Vec<String>)
    ensures
        r@ == list@,
{
    let mut r: Vec<String> = Vec::new();
    let mut i: usize = 0;
    while i < list.len()
        invariant
            i <= list@.len(),
            r@ == list@.take(i as int),
        decreases list@.len() - i,
    {
        let s: String = list[i].clone();
        r.push(s);
        assert(list@.take(i + 1) =~= list@.take(i as int).push(list@[i as int]));
        i = i + 1;
    }
    assert(list@.take(i as int) =~= list@);
    r
}

/// Whether a list holds a string with the given characters.
pub fn contains(list: &Vec<String>, text: &String) -> (r: bool)
    ensures
        r == texts(list@).contains(text@),
{
    let mut i: usize = 0;
    while i < list.len()
        invariant
            i <= list@.len(),
            forall|j: int| 0 <= j < i ==> texts(list@)[j] != text@,
        decreases list@.len() - i,
    {
        if list[i] == *text {
            assert(texts(list@)[i as int] == text@);
            return true;
        }
        i = i + 1;
    }
    false
}

/// The character of a decimal digit.
pub open spec fn digit(d: nat) -> char {
    (48 + d) as char
}

/// The decimal numeral of a number, without leading zeros.
pub open spec fn numeral(n: nat) -> Seq<char>
    decreases n,
{
    if n < 10 {
        seq![digit(n)]
    } else {
        numeral(n / 10).push(digit(n % 10))
    }
}

fn digit_text(d: u32) -> (s: &'static str)
    requires
        d < 10,
    ensures
        s@ == seq![digit(d as nat)],
{
    proof {
        reveal_strlit("0");
        reveal_strlit("1");
        reveal_strlit("2");
        reveal_strlit("3");
        reveal_strlit("4");
        reveal_strlit("5");
        reveal_strlit("6");
        reveal_strlit("7");
        reveal_strlit("8");
        reveal_strlit("9");
    }
    if d == 0 {
        "0"
    } else if d == 1 {
        "1"
    } else if d == 2 {
        "2"
    } else if d == 3 {
        "3"
    } else if d == 4 {
        "4"
    } else if d == 5 {
        "5"
    } else if d == 6 {
        "6"
    } else if d == 7 {
        "7"
    } else if d == 8 {
        "8"
    } else {
        "9"
    }
}

/// Writes a number in decimal.
pub fn decimal(n: u32) -> (s: String)
    ensures
        s@ == numeral(n as nat),
    decreases n,
{
    if n < 10 {
        digit_text(n).to_owned()
    } else {
        let mut s: String = decimal(n / 10);
        s.append(digit_text(n % 10));
        proof {
            assert(numeral(n as nat / 10) + seq![digit(n as nat % 10)] =~= numeral(
                n as nat / 10,
            ).push(digit(n as nat % 10)));
        }
        s
    }
}

/// What `str::to_lowercase` makes of the given characters.
pub uninterp spec fn lowercased(s: Seq<char>) -> Seq<char>;

/// Whether all characters are ASCII.
pub open spec fn ascii(s: Seq<char>) -> bool {
    forall|i: int| 0 <= i < s.len() ==> (#[trigger] s[i] as u32) < 128
}

/// The lowercase form of an ASCII character.
pub open spec fn ascii_lower(c: char) -> char {
    if 65 <= c as u32 && c as u32 <= 90 {
        (c as u32 + 32) as char
    } else {
        c
    }
}

/// Calls `str::to_lowercase`. The result depends on the characters of `s`
/// alone; on ASCII text it is the text with `A` to `Z` replaced by `a` to `z`.
#[verifier::external_body]
pub(crate) fn lowercase(s: &str) -> (r: String)
    ensures
        r@ == lowercased(s@),
        ascii(s@) ==> r@ == s@.map_values(|c: char| ascii_lower(c)),
{
    s.to_lowercase()
}

/// The text with a hyphen for each space.
pub open spec fn hyphenated(s: Seq<char>) -> Seq<char> {
    s.map_values(
        |c: char|
            if c == ' ' {
                '-'
            } else {
                c
            },
    )
}

/// Puts a hyphen for each space.
pub fn hyphenate(s: &str) -> (r: String)
    ensures
        r@ == hyphenated(s@),
{
    let mut r: String = String::new();
    let n: usize = s.unicode_len();
    let mut i: usize = 0;
    while i < n
        invariant
            i <= n,
            n == s@.len(),
            r@ == hyphenated(s@).take(i as int),
        decreases n - i,
    {
        let ghost before = r@;
        if s.get_char(i) == ' ' {
            proof {
                reveal_strlit("-");
            }
            r.append("-");
        } else {
            r.append(s.substring_char(i, i + 1));
        }
        assert(r@ =~= before.push(hyphenated(s@)[i as int]));
        assert(hyphenated(s@).take(i + 1) =~= hyphenated(s@).take(i as int).push(
            hyphenated(s@)[i as int],
        ));
        i = i + 1;
    }
    assert(hyphenated(s@).take(i as int) =~= hyphenated(s@));
    r
}

/// The number that a list of decimal digits stands for.
pub open spec fn read_decimal(s: Seq<char>) -> int
    decreases s.len(),
{
    if s.len() == 0 {
        0
    } else {
        10 * read_decimal(s.drop_last()) + (s.last() as int - '0' as int)
    }
}

/// A numeral is read back as its number. It is made of digits, and starts with
/// a zero only where it stands for zero.
pub proof fn numerals_are_read_back(n: nat)
    ensures
        read_decimal(numeral(n)) == n,
        numeral(n).len() > 0,
        forall|i: int| 0 <= i < numeral(n).len() ==> '0' <= #[trigger] numeral(n)[i] <= '9',
        n > 0 ==> numeral(n)[0] != '0',
    decreases n,
{
    if n < 10 {
        reveal_with_fuel(read_decimal, 2);
        assert(numeral(n).drop_last().len() == 0);
    } else {
        numerals_are_read_back(n / 10);
        assert(numeral(n).drop_last() =~= numeral(n / 10));
    }
}

} // verus!
