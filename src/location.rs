use vstd::prelude::*;
use vstd::string::StrSliceExecFns;

verus! {

/// Position of the last '/' in `s`.
pub open spec fn last_slash(s: Seq<char>) -> Option<int>
    decreases s.len(),
{
    if s.len() == 0 {
        None
    } else if s.last() == '/' {
        Some(s.len() - 1)
    } else {
        last_slash(s.drop_last())
    }
}

/// The directory part and the final name of a location, split at its last
/// '/'. A location whose only '/' comes first has "/" as its directory.
/// There are none when the location holds no '/' or ends in one.
pub open spec fn location_parts(s: Seq<char>) -> Option<(Seq<char>, Seq<char>)> {
    match last_slash(s) {
        None => None,
        Some(i) => if i + 1 == s.len() {
            None
        } else {
            Some(
                (
                    if i == 0 {
                        seq!['/']
                    } else {
                        s.subrange(0, i)
                    },
                    s.subrange(i + 1, s.len() as int),
                ),
            )
        },
    }
}

proof fn lemma_last_slash_append(x: Seq<char>, n: Seq<char>)
    requires
        !n.contains('/'),
    ensures
        last_slash(x + n) == last_slash(x),
    decreases n.len(),
{
    if n.len() > 0 {
        assert((x + n).last() == n.last());
        assert(n.contains(n.last()) && n[n.len() - 1] == n.last());
        assert((x + n).drop_last() =~= x + n.drop_last());
        assert forall|c: char| n.drop_last().contains(c) implies n.contains(c) by {
            let j = n.drop_last().index_of(c);
            assert(n[j] == c);
        }
        lemma_last_slash_append(x, n.drop_last());
    } else {
        assert(x + n =~= x);
    }
}

/// A nonempty location `r`, a '/', then a name without '/': its parts are
/// `r` and the name.
pub proof fn lemma_parts_of_child(r: Seq<char>, n: Seq<char>)
    requires
        r.len() > 0,
        n.len() > 0,
        !n.contains('/'),
    ensures
        location_parts(r + seq!['/'] + n) == Some((r, n)),
{
    let x = r + seq!['/'];
    lemma_last_slash_append(x, n);
    assert(x.drop_last() =~= r);
    let s = x + n;
    assert(s.subrange(0, r.len() as int) =~= r);
    assert(s.subrange(r.len() as int + 1, s.len() as int) =~= n);
}

/// Splits `location` into its directory part and its final name.
pub fn parent_and_name(location: &str) -> (r: Option<(String, String)>)
    ensures
        match r {
            Some((p, n)) => location_parts(location@) == Some((p@, n@)),
            None => location_parts(location@) is None,
        },
{
    let len = location.unicode_len();
    let mut i: usize = len;
    proof {
        assert(location@.subrange(0, len as int) =~= location@);
    }
    while i > 0
        invariant
            i <= len,
            len == location@.len(),
            last_slash(location@) == last_slash(location@.subrange(0, i as int)),
        decreases i,
    {
        if location.get_char(i - 1) == '/' {
            let at: usize = i - 1;
            proof {
                assert(location@.subrange(0, i as int).last() == '/');
            }
            if at + 1 == len {
                return None;
            }
            let parent: String = if at == 0 {
                proof {
                    reveal_strlit("/");
                }
                "/".to_owned()
            } else {
                location.substring_char(0, at).to_owned()
            };
            let name: String = location.substring_char(at + 1, len).to_owned();
            proof {
                if at == 0 {
                    assert(parent@ =~= seq!['/']);
                }
            }
            return Some((parent, name));
        }
        proof {
            assert(location@.subrange(0, i as int).drop_last() =~= location@.subrange(
                0,
                i - 1,
            ));
        }
        i -= 1;
    }
    proof {
        assert(location@.subrange(0, 0) =~= Seq::<char>::empty());
    }
    None
}

} // verus!
