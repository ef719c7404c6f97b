use vstd::prelude::*;
use vstd::string::StrSliceExecFns;
use vstd::string::StringExecFns;

use crate::error::PMTilesError;

verus! {

/// `s` names an object store location: it starts with the s3 scheme.
pub open spec fn spec_is_s3_path(s: Seq<char>) -> bool {
    s.len() >= 5 && s[0] == 's' && s[1] == '3' && s[2] == ':' && s[3] == '/' && s[4] == '/'
}

/// Whether `path` carries the s3 scheme prefix.
pub fn is_s3_path(path: &str) -> (r: bool)
    ensures
        r == spec_is_s3_path(path@),
{
    if path.unicode_len() < 5 {
        return false;
    }
    path.get_char(0) == 's' && path.get_char(1) == '3' && path.get_char(2) == ':'
        && path.get_char(3) == '/' && path.get_char(4) == '/'
}

/// `path` with every leading s3 scheme prefix stripped.
pub open spec fn spec_strip_s3(s: Seq<char>) -> Seq<char>
    decreases s.len(),
{
    if spec_is_s3_path(s) {
        spec_strip_s3(s.subrange(5, s.len() as int))
    } else {
        s
    }
}

/// Some character of `s` is a slash.
pub open spec fn has_slash(s: Seq<char>) -> bool {
    exists|i: int| 0 <= i < s.len() && s[i] == '/'
}

/// Split an s3 location into its bucket (up to the first slash after the
/// scheme) and its key (everything after that slash). A location without a
/// key is rejected.
pub fn bucket_and_key_from_path<'a>(path: &'a str) -> (r: Result<(&'a str, String), PMTilesError>)
    ensures
        r is Ok <==> has_slash(spec_strip_s3(path@)),
        r matches Ok(t) ==> exists|f: int|
            {
                &&& 0 <= f < spec_strip_s3(path@).len()
                &&& #[trigger] spec_strip_s3(path@)[f] == '/'
                &&& (forall|j: int| 0 <= j < f ==> spec_strip_s3(path@)[j] != '/')
                &&& t.0@ == spec_strip_s3(path@).subrange(0, f)
                &&& t.1@ == spec_strip_s3(path@).subrange(f + 1, spec_strip_s3(path@).len() as int)
            },
{
    let n = path.unicode_len();
    proof {
        assert(path@.subrange(0, n as int) =~= path@);
    }
    let mut start: usize = 0;
    while n - start >= 5 && path.get_char(start) == 's' && path.get_char(start + 1) == '3'
        && path.get_char(start + 2) == ':' && path.get_char(start + 3) == '/' && path.get_char(
        start + 4,
    ) == '/'
        invariant
            start <= n,
            n == path@.len(),
            spec_strip_s3(path@) == spec_strip_s3(path@.subrange(start as int, n as int)),
        decreases n - start,
    {
        proof {
            let sub = path@.subrange(start as int, n as int);
            assert(spec_is_s3_path(sub));
            assert(sub.subrange(5, sub.len() as int) =~= path@.subrange(start + 5, n as int));
        }
        start = start + 5;
    }
    let ghost rest = spec_strip_s3(path@);
    proof {
        assert(!spec_is_s3_path(path@.subrange(start as int, n as int)));
        assert(rest =~= path@.subrange(start as int, n as int));
    }
    let mut f: usize = start;
    while f < n && path.get_char(f) != '/'
        invariant
            start <= f <= n,
            n == path@.len(),
            forall|j: int| start <= j < f ==> path@[j] != '/',
        decreases n - f,
    {
        f = f + 1;
    }
    if f == n {
        proof {
            assert forall|i: int| 0 <= i < rest.len() implies rest[i] != '/' by {
                assert(rest[i] == path@[start + i]);
            }
        }
        return Err(PMTilesError::BadRequest(String::from_str("invalid path")));
    }
    let bucket = path.substring_char(start, f);
    let key = String::from_str(path.substring_char(f + 1, n));
    proof {
        let fr: int = f - start;
        assert(rest[fr] == path@[f as int]);
        assert forall|j: int| 0 <= j < fr implies rest[j] != '/' by {
            assert(rest[j] == path@[start + j]);
        }
        assert(bucket@ =~= rest.subrange(0, fr));
        assert(key@ =~= rest.subrange(fr + 1, rest.len() as int));
    }
    Ok((bucket, key))
}

} // verus!
