//! Key-path queries over a canonical value: follow a `=`-separated path of
//! key segments, failing at the first segment that is absent.

use vstd::prelude::*;
use vstd::string::StringExecFns;
use crate::parser::CCL;
use crate::parser::CclV;
use crate::parser::lookup_v;
use crate::text::split_at;
use crate::text::split_at_char;
use crate::text::string_from_chars;
use crate::text::to_chars;

verus! {

/// The message reported for the first missing segment.
pub open spec fn not_found_text(key: Seq<char>) -> Seq<char> {
    "Key '"@ + key + "' not found"@
}

/// Following a path of key segments: the child at its end, or the message of
/// the first segment that is absent.
pub open spec fn query_path(v: CclV, segs: Seq<Seq<char>>) -> Result<CclV, Seq<char>>
    decreases segs.len(),
{
    if segs.len() == 0 {
        Ok(v)
    } else {
        match lookup_v(v, segs[0]) {
            Some(c) => query_path(c, segs.drop_first()),
            None => Err(not_found_text(segs[0])),
        }
    }
}

/// One lookup step: the child bound to the key, or the not-found message.
pub fn query_single_key(key: &str, ccl: &CCL) -> (r: Result<CCL, String>)
    ensures
        match r {
            Ok(c) => lookup_v(ccl@, key@) == Some(c@),
            Err(e) => lookup_v(ccl@, key@) is None && e@ == not_found_text(key@),
        },
{
    match ccl.get(key) {
        Some(c) => Ok(c.duplicate()),
        None => {
            let mut msg = "Key '".to_owned();
            msg.append(key);
            msg.append("' not found");
            Err(msg)
        },
    }
}

/// Follow a whole `=`-separated query: each segment is looked up in turn,
/// and the first absent segment is the error.
#[verifier::loop_isolation(false)]
pub fn execute_query(query_key: &str, ccl: &CCL) -> (r: Result<CCL, String>)
    ensures
        match r {
            Ok(c) => query_path(ccl@, split_at_char(query_key@, '=')) == Ok::<CclV, Seq<char>>(c@),
            Err(e) => query_path(ccl@, split_at_char(query_key@, '=')) == Err::<
                CclV,
                Seq<char>,
            >(e@),
        },
{
    let ghost segs = split_at_char(query_key@, '=');
    let qc = to_chars(query_key);
    let parts = split_at(&qc, '=');
    let n = parts.len();
    let mut cur = ccl.duplicate();
    let mut i: usize = 0;
    proof {
        assert(segs.skip(0) =~= segs);
    }
    while i < n
        invariant
            0 <= i <= n,
            n == parts@.len(),
            crate::text::lines_view(parts@) == segs,
            segs.len() == n,
            forall|j: int| 0 <= j < n ==> #[trigger] segs[j] == parts@[j]@,
            query_path(ccl@, segs) == query_path(cur@, segs.skip(i as int)),
        decreases n - i,
    {
        let seg = string_from_chars(&parts[i]);
        proof {
            assert(segs.skip(i as int)[0] == segs[i as int]);
            assert(segs.skip(i as int).drop_first() =~= segs.skip(i + 1));
        }
        let next = match query_single_key(seg.as_str(), &cur) {
            Ok(c) => c,
            Err(e) => {
                proof {
                    assert(seg@ == segs[i as int]);
                    assert(lookup_v(cur@, segs.skip(i as int)[0]) is None);
                    assert(query_path(cur@, segs.skip(i as int)) == Err::<CclV, Seq<char>>(e@));
                }
                return Err(e);
            },
        };
        cur = next;
        i = i + 1;
    }
    proof {
        assert(segs.skip(n as int).len() == 0);
    }
    Ok(cur)
}

} // verus!
