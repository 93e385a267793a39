//! The operator's answer to the confirmation prompt.
use vstd::prelude::*;
use vstd::string::*;

verus! {

/// The uppercase form that `str::to_uppercase` gives of a string.
pub uninterp spec fn upper_of(s: Seq<char>) -> Seq<char>;

/// The characters of Unicode's White_Space property, which `str::trim`
/// strips.
pub open spec fn is_white(c: char) -> bool {
    let u = c as u32;
    (0x9 <= u <= 0xd) || u == 0x20 || u == 0x85 || u == 0xa0 || u == 0x1680 || (0x2000 <= u
        <= 0x200a) || u == 0x2028 || u == 0x2029 || u == 0x202f || u == 0x205f || u == 0x3000
}

/// The text without its leading white space.
pub open spec fn trim_start_of(s: Seq<char>) -> Seq<char>
    decreases s.len(),
{
    if s.len() > 0 && is_white(s[0]) {
        trim_start_of(s.drop_first())
    } else {
        s
    }
}

/// The text without its trailing white space.
pub open spec fn trim_end_of(s: Seq<char>) -> Seq<char>
    decreases s.len(),
{
    if s.len() > 0 && is_white(s.last()) {
        trim_end_of(s.drop_last())
    } else {
        s
    }
}

/// The text without white space at either end.
pub open spec fn trimmed_of(s: Seq<char>) -> Seq<char> {
    trim_end_of(trim_start_of(s))
}

/// Whether `c` is White_Space.
pub fn white(c: char) -> (r: bool)
    ensures
        r == is_white(c),
{
    let u = c as u32;
    (0x9 <= u && u <= 0xd) || u == 0x20 || u == 0x85 || u == 0xa0 || u == 0x1680 || (0x2000 <= u
        && u <= 0x200a) || u == 0x2028 || u == 0x2029 || u == 0x202f || u == 0x205f || u == 0x3000
}

/// The text without white space at either end, as `str::trim` gives it.
pub fn trimmed(s: &str) -> (r: String)
    ensures
        r@ == trimmed_of(s@),
{
    let n = s.unicode_len();
    let mut i: usize = 0;
    assert(s@.subrange(0, n as int) =~= s@);
    while i < n && white(s.get_char(i))
        invariant
            i <= n == s@.len(),
            trim_start_of(s@) == trim_start_of(s@.subrange(i as int, n as int)),
        decreases n - i,
    {
        assert(s@.subrange(i as int, n as int).drop_first() =~= s@.subrange(i + 1, n as int));
        i = i + 1;
    }
    let ghost front = s@.subrange(i as int, n as int);
    assert(trim_start_of(s@) == front);
    let mut j: usize = n;
    assert(front.subrange(0, (n - i) as int) =~= front);
    while j > i && white(s.get_char(j - 1))
        invariant
            i <= j <= n == s@.len(),
            front == s@.subrange(i as int, n as int),
            trim_end_of(front) == trim_end_of(s@.subrange(i as int, j as int)),
        decreases j,
    {
        assert(s@.subrange(i as int, j as int).drop_last() =~= s@.subrange(i as int, j - 1));
        j = j - 1;
    }
    String::from_str(s.substring_char(i, j))
}

/// Relies on `str::to_uppercase`: its result depends on the characters alone.
#[verifier::external_body]
fn uppercase(s: &str) -> (r: String)
    ensures
        r@ == upper_of(s@),
{
    s.to_uppercase()
}

/// The words that accept: `Y` and `YES`.
pub open spec fn yes_word(s: Seq<char>) -> bool {
    s == seq!['Y'] || s == seq!['Y', 'E', 'S']
}

/// Whether an answer, already trimmed and uppercased, accepts.
pub fn is_yes(answer: &str) -> (r: bool)
    ensures
        r == yes_word(answer@),
{
    proof {
        reveal_strlit("Y");
        reveal_strlit("YES");
    }
    let a = String::from_str(answer);
    let y = String::from_str("Y");
    let yes = String::from_str("YES");
    assert(y@ =~= seq!['Y']);
    assert(yes@ =~= seq!['Y', 'E', 'S']);
    a == y || a == yes
}

/// Whether a line typed at the prompt accepts: once trimmed and uppercased
/// it is `Y` or `YES`.
pub fn is_confirmed(line: &str) -> (r: bool)
    ensures
        r == yes_word(upper_of(trimmed_of(line@))),
{
    let t = trimmed(line);
    let u = uppercase(t.as_str());
    is_yes(u.as_str())
}

} // verus!
