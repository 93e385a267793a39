//! Destination names in the root: the collision suffix, and how paths are shown.
use vstd::prelude::*;
use vstd::string::*;
use crate::filter::has_prefix;

verus! {

/// The decimal digits, by value.
pub open spec fn digits() -> Seq<char> {
    seq!['0', '1', '2', '3', '4', '5', '6', '7', '8', '9']
}

/// The decimal form of `n`, without leading zeros.
pub open spec fn decimal(n: nat) -> Seq<char>
    decreases n,
{
    if n < 10 {
        seq![digits()[n as int]]
    } else {
        decimal(n / 10).push(digits()[(n % 10) as int])
    }
}

/// Index of the last `.` in `s`, or -1 when there is none.
pub open spec fn last_dot(s: Seq<char>) -> int
    decreases s.len(),
{
    if s.len() == 0 {
        -1
    } else if s.last() == '.' {
        s.len() - 1
    } else {
        last_dot(s.drop_last())
    }
}

/// The name has an extension: it holds a `.`.
pub open spec fn has_ext(s: Seq<char>) -> bool {
    last_dot(s) >= 0
}

/// The name up to its last `.`; the whole name when it has none.
pub open spec fn stem_of(s: Seq<char>) -> Seq<char> {
    if has_ext(s) {
        s.subrange(0, last_dot(s))
    } else {
        s
    }
}

/// What follows the last `.` of the name, possibly nothing; empty when the
/// name has no `.`.
pub open spec fn ext_of(s: Seq<char>) -> Seq<char> {
    if has_ext(s) {
        s.subrange(last_dot(s) + 1, s.len() as int)
    } else {
        Seq::empty()
    }
}

/// The `k`-th name tried for a file called `name`: the name itself first,
/// then `stem_k.ext`, or `stem_k` where the name has no extension.
pub open spec fn candidate(name: Seq<char>, k: nat) -> Seq<char> {
    if k == 0 {
        name
    } else if has_ext(name) {
        stem_of(name) + seq!['_'] + decimal(k) + seq!['.'] + ext_of(name)
    } else {
        stem_of(name) + seq!['_'] + decimal(k)
    }
}

proof fn lemma_last_dot_bounds(s: Seq<char>)
    ensures
        -1 <= last_dot(s) < s.len(),
        last_dot(s) >= 0 ==> s[last_dot(s)] == '.',
        forall|j: int| last_dot(s) < j < s.len() ==> s[j] != '.',
    decreases s.len(),
{
    if s.len() > 0 && s.last() != '.' {
        lemma_last_dot_bounds(s.drop_last());
        assert forall|j: int| last_dot(s) < j < s.len() implies s[j] != '.' by {
            if j < s.len() - 1 {
                assert(s[j] == s.drop_last()[j]);
            }
        }
    }
}

/// The decimal form of `n`.
pub fn decimal_string(n: usize) -> (r: String)
    ensures
        r@ == decimal(n as nat),
    decreases n,
{
    proof {
        reveal_strlit("0123456789");
    }
    let all = "0123456789";
    assert(all@ =~= digits());
    let d = n % 10;
    let digit = all.substring_char(d, d + 1);
    assert(digit@ =~= seq![digits()[d as int]]);
    if n < 10 {
        String::from_str(digit)
    } else {
        let mut s = decimal_string(n / 10);
        s.append(digit);
        assert(s@ =~= decimal(n as nat));
        s
    }
}

/// Index of the last `.` in `s`, or `None` when there is none.
fn find_last_dot(s: &str) -> (r: Option<usize>)
    ensures
        r matches Some(i) ==> i as int == last_dot(s@),
        r is None ==> last_dot(s@) == -1,
{
    let n = s.unicode_len();
    let mut i: usize = n;
    assert(s@.subrange(0, n as int) =~= s@);
    while i > 0
        invariant
            i <= n == s@.len(),
            last_dot(s@) == last_dot(s@.subrange(0, i as int)),
        decreases i,
    {
        let ghost pre = s@.subrange(0, i as int);
        if s.get_char(i - 1) == '.' {
            return Some(i - 1);
        }
        assert(pre.drop_last() =~= s@.subrange(0, i - 1));
        i = i - 1;
    }
    assert(s@.subrange(0, 0).len() == 0);
    None
}

/// The `counter`-th name tried for a file called `name` when it is moved
/// into the root: `name` itself for 0, then `stem_1.ext`, `stem_2.ext`, and so on.
pub fn candidate_name(name: &str, counter: usize) -> (r: String)
    ensures
        r@ == candidate(name@, counter as nat),
{
    if counter == 0 {
        return String::from_str(name);
    }
    proof {
        lemma_last_dot_bounds(name@);
        reveal_strlit("_");
        reveal_strlit(".");
    }
    let n = name.unicode_len();
    let dot = find_last_dot(name);
    let (stem, ext) = match dot {
        Some(i) => (name.substring_char(0, i), Some(name.substring_char(i + 1, n))),
        None => (name, None),
    };
    assert(stem@ == stem_of(name@));
    let mut r = String::from_str(stem);
    r.append("_");
    let digits = decimal_string(counter);
    r.append(digits.as_str());
    if let Some(e) = ext {
        assert(e@ =~= ext_of(name@));
        r.append(".");
        r.append(e);
    }
    r
}

proof fn lemma_decimal_len(n: nat)
    ensures
        decimal(n).len() >= 1,
        n >= 10 ==> decimal(n).len() >= 2,
    decreases n,
{
    if n >= 10 {
        lemma_decimal_len(n / 10);
    }
}

/// Distinct numbers have distinct decimal forms.
pub proof fn lemma_decimal_injective(a: nat, b: nat)
    requires
        decimal(a) == decimal(b),
    ensures
        a == b,
    decreases a,
{
    lemma_decimal_len(a);
    lemma_decimal_len(b);
    if a < 10 && b < 10 {
        assert(decimal(a)[0] == digits()[a as int]);
        assert(decimal(b)[0] == digits()[b as int]);
    } else if a >= 10 && b >= 10 {
        let da = decimal(a / 10);
        let db = decimal(b / 10);
        assert(decimal(a).last() == digits()[(a % 10) as int]);
        assert(decimal(b).last() == digits()[(b % 10) as int]);
        assert(decimal(a).drop_last() =~= da);
        assert(decimal(b).drop_last() =~= db);
        lemma_decimal_injective(a / 10, b / 10);
    }
}

proof fn lemma_stem_ext(name: Seq<char>)
    ensures
        !has_ext(name) ==> stem_of(name) == name,
        has_ext(name) ==> stem_of(name).len() + ext_of(name).len() + 1 == name.len(),
{
    lemma_last_dot_bounds(name);
}

/// Distinct counters give distinct candidate names, so that the probes of one
/// file never try the same name twice.
pub proof fn lemma_candidates_distinct(name: Seq<char>, j: nat, k: nat)
    requires
        j != k,
    ensures
        candidate(name, j) != candidate(name, k),
{
    lemma_stem_ext(name);
    lemma_decimal_len(j);
    lemma_decimal_len(k);
    if j > 0 && k > 0 {
        let p = stem_of(name) + seq!['_'];
        let cj = candidate(name, j);
        let ck = candidate(name, k);
        if cj == ck {
            let tail = if has_ext(name) {
                seq!['.'] + ext_of(name)
            } else {
                Seq::<char>::empty()
            };
            assert(cj =~= p + decimal(j) + tail);
            assert(ck =~= p + decimal(k) + tail);
            assert(decimal(j).len() == decimal(k).len());
            assert(decimal(j) =~= cj.subrange(p.len() as int, (p.len() + decimal(j).len()) as int));
            assert(decimal(k) =~= ck.subrange(p.len() as int, (p.len() + decimal(k).len()) as int));
            lemma_decimal_injective(j, k);
        }
    } else {
        assert(candidate(name, j).len() != candidate(name, k).len());
    }
}

/// A path without the `\\?\` prefix that canonical paths carry on some
/// platforms.
pub open spec fn shown(path: Seq<char>) -> Seq<char> {
    if unc_prefix().is_prefix_of(path) {
        path.subrange(4, path.len() as int)
    } else {
        path
    }
}

/// The four characters `\\?\`.
pub open spec fn unc_prefix() -> Seq<char> {
    seq!['\\', '\\', '?', '\\']
}

/// The path text, without a leading `\\?\` where `strip` asks for it (on
/// the platforms whose canonical paths carry that prefix).
pub fn display_path(path: &str, strip: bool) -> (r: String)
    ensures
        r@ == if strip {
            shown(path@)
        } else {
            path@
        },
{
    proof {
        reveal_strlit("\\\\?\\");
    }
    let prefix = "\\\\?\\";
    assert(prefix@ =~= unc_prefix());
    if strip && has_prefix(path, prefix) {
        let n = path.unicode_len();
        String::from_str(path.substring_char(4, n))
    } else {
        String::from_str(path)
    }
}

} // verus!
