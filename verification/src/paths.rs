use vstd::prelude::*;
use vstd::string::StrSliceExecFns;
use vstd::string::StringExecFns;

verus! {

/// `s` without its trailing slashes.
pub open spec fn trimmed_end_slashes(s: Seq<char>) -> Seq<char>
    decreases s.len(),
{
    if s.len() > 0 && s[s.len() - 1] == '/' {
        trimmed_end_slashes(s.drop_last())
    } else {
        s
    }
}

/// `s` without its leading slashes.
pub open spec fn trimmed_start_slashes(s: Seq<char>) -> Seq<char>
    decreases s.len(),
{
    if s.len() > 0 && s[0] == '/' {
        trimmed_start_slashes(s.subrange(1, s.len() as int))
    } else {
        s
    }
}

/// The longest prefix of `s` without its trailing slashes, as a borrowed
/// slice.
pub fn trim_end_slashes<'a>(s: &'a str) -> (r: &'a str)
    ensures
        r@ == trimmed_end_slashes(s@),
{
    let n = s.unicode_len();
    proof {
        assert(s@.subrange(0, n as int) =~= s@);
    }
    let mut e: usize = n;
    while e > 0 && s.get_char(e - 1) == '/'
        invariant
            e <= n,
            n == s@.len(),
            trimmed_end_slashes(s@) == trimmed_end_slashes(s@.subrange(0, e as int)),
        decreases e,
    {
        proof {
            assert(s@.subrange(0, e as int).drop_last() =~= s@.subrange(0, e - 1));
        }
        e = e - 1;
    }
    proof {
        assert(s@.subrange(0, n as int) =~= s@);
    }
    s.substring_char(0, e)
}

/// The longest suffix of `s` without its leading slashes, as a borrowed
/// slice.
pub fn trim_start_slashes<'a>(s: &'a str) -> (r: &'a str)
    ensures
        r@ == trimmed_start_slashes(s@),
{
    let n = s.unicode_len();
    proof {
        assert(s@.subrange(0, n as int) =~= s@);
    }
    let mut b: usize = 0;
    while b < n && s.get_char(b) == '/'
        invariant
            b <= n,
            n == s@.len(),
            trimmed_start_slashes(s@) == trimmed_start_slashes(s@.subrange(b as int, n as int)),
        decreases n - b,
    {
        proof {
            assert(s@.subrange(b as int, n as int).subrange(
                1,
                s@.subrange(b as int, n as int).len() as int,
            ) =~= s@.subrange(b + 1, n as int));
        }
        b = b + 1;
    }
    proof {
        assert(s@.subrange(0, n as int) =~= s@);
    }
    s.substring_char(b, n)
}

/// Join two path fragments with exactly one slash between them.
pub fn join_path(part1: &str, part2: &str) -> (r: String)
    ensures
        r@ == trimmed_end_slashes(part1@) + seq!['/'] + trimmed_start_slashes(part2@),
{
    let t1 = trim_end_slashes(part1);
    let t2 = trim_start_slashes(part2);
    let mut out = String::from_str(t1);
    out.append("/");
    out.append(t2);
    proof {
        reveal_strlit("/");
        assert("/"@ =~= seq!['/']);
    }
    out
}

/// A copy of `path` without leading or trailing slashes.
pub fn trim_slash(path: &str) -> (r: String)
    ensures
        r@ == trimmed_start_slashes(trimmed_end_slashes(path@)),
{
    let t1 = trim_end_slashes(path);
    let t2 = trim_start_slashes(t1);
    String::from_str(t2)
}

/// Whether two string slices hold the same characters.
pub fn str_eq(a: &str, b: &str) -> (r: bool)
    ensures
        r == (a@ == b@),
{
    let na = a.unicode_len();
    let nb = b.unicode_len();
    if na != nb {
        return false;
    }
    let mut i: usize = 0;
    while i < na
        invariant
            i <= na,
            na == a@.len(),
            na == b@.len(),
            forall|j: int| 0 <= j < i ==> a@[j] == b@[j],
        decreases na - i,
    {
        if a.get_char(i) != b.get_char(i) {
            return false;
        }
        i = i + 1;
    }
    proof {
        assert(a@ =~= b@);
    }
    true
}

} // verus!
