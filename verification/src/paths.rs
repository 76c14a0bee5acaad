//! The upward search for a default target file, as pure path arithmetic.
//!
//! Paths are `'/'`-separated text. `find_up` lists, innermost first, the
//! candidate paths obtained by joining the given file name onto the
//! starting directory and each of its ancestors; the surrounding process
//! checks which candidate exists on disk.

use vstd::prelude::*;
use vstd::string::StrSliceExecFns;
use vstd::string::StringExecFns;

verus! {

/// Index of the last `'/'` in `p`, or `-1` if there is none.
pub open spec fn last_slash(p: Seq<char>) -> int
    decreases p.len(),
{
    if p.len() == 0 {
        -1
    } else if p[p.len() - 1] == '/' {
        p.len() - 1
    } else {
        last_slash(p.drop_last())
    }
}

pub proof fn lemma_last_slash(p: Seq<char>)
    ensures
        -1 <= last_slash(p) < p.len(),
        last_slash(p) >= 0 ==> p[last_slash(p)] == '/',
        forall|j: int| last_slash(p) < j < p.len() ==> p[j] != '/',
    decreases p.len(),
{
    if p.len() == 0 {
    } else if p[p.len() - 1] == '/' {
    } else {
        lemma_last_slash(p.drop_last());
        assert forall|j: int| last_slash(p) < j < p.len() implies p[j] != '/' by {
            if j < p.len() - 1 {
                assert(p.drop_last()[j] == p[j]);
            }
        }
        if last_slash(p) >= 0 {
            assert(p.drop_last()[last_slash(p)] == p[last_slash(p)]);
        }
    }
}

/// The directory above `p`: the text before the last `'/'`, the root for a
/// path directly under it, and nothing for the root itself or for a path
/// with no `'/'` at all.
pub open spec fn parent_of(p: Seq<char>) -> Option<Seq<char>> {
    let i = last_slash(p);
    if i == 0 && p.len() > 1 {
        Some(seq!['/'])
    } else if 1 <= i < p.len() {
        Some(p.take(i))
    } else {
        None
    }
}

/// `name` placed inside the directory `dir`.
pub open spec fn join_path(dir: Seq<char>, name: Seq<char>) -> Seq<char> {
    if dir.len() > 0 && dir[dir.len() - 1] == '/' {
        dir + name
    } else {
        dir + seq!['/'] + name
    }
}

/// Every candidate path for `name`, starting at `p` and walking upwards.
pub open spec fn candidates_spec(p: Seq<char>, name: Seq<char>) -> Seq<Seq<char>>
    decreases p.len(),
{
    seq![join_path(p, name)] + (match parent_of(p) {
        Some(q) => candidates_spec(q, name),
        None => Seq::empty(),
    })
}

/// Lists the paths at which `filename` could sit, from `starting_path`
/// upwards through every ancestor directory, innermost first.
#[verifier::loop_isolation(true)]
pub fn find_up(starting_path: &str, filename: &str) -> (r: Vec<String>)
    ensures
        r.deep_view() == candidates_spec(starting_path@, filename@),
{
    let mut out: Vec<String> = Vec::new();
    let mut cur = String::from_str(starting_path);
    proof {
        assert(out.deep_view() =~= Seq::<Seq<char>>::empty());
    }
    loop
        invariant_except_break
            candidates_spec(starting_path@, filename@) == out.deep_view() + candidates_spec(
                cur@,
                filename@,
            ),
        ensures
            out.deep_view() == candidates_spec(starting_path@, filename@),
        decreases cur@.len(),
    {
        let n = cur.as_str().unicode_len();
        let mut cand = cur.clone();
        if n == 0 || cur.as_str().get_char(n - 1) != '/' {
            cand.append("/");
        }
        cand.append(filename);
        proof {
            reveal_strlit("/");
            assert("/"@ =~= seq!['/']);
            assert(cand@ == join_path(cur@, filename@));
        }
        let ghost before = out.deep_view();
        let ghost old_cur = cur@;
        out.push(cand);
        proof {
            assert(out.deep_view() =~= before.push(join_path(old_cur, filename@)));
        }
        // find the last '/'
        let mut k: usize = n;
        while k > 0 && cur.as_str().get_char(k - 1) != '/'
            invariant
                k <= n,
                n == cur@.len(),
                forall|j: int| k <= j < n ==> cur@[j] != '/',
            decreases k,
        {
            k -= 1;
        }
        proof {
            lemma_last_slash(cur@);
            assert(last_slash(cur@) == k - 1);
        }
        if k == 0 || (k == 1 && n == 1) {
            proof {
                assert(parent_of(old_cur) is None);
                assert(candidates_spec(old_cur, filename@) =~= seq![
                    join_path(old_cur, filename@),
                ]);
                assert(out.deep_view() =~= before + candidates_spec(old_cur, filename@));
            }
            break;
        }
        if k == 1 {
            cur = String::from_str("/");
            proof {
                assert(cur@ =~= seq!['/']);
            }
        } else {
            let next = String::from_str(cur.as_str().substring_char(0, k - 1));
            cur = next;
        }
        proof {
            assert(parent_of(old_cur) == Some(cur@));
            assert(candidates_spec(old_cur, filename@) == seq![join_path(old_cur, filename@)]
                + candidates_spec(cur@, filename@));
            assert(before + candidates_spec(old_cur, filename@) =~= out.deep_view()
                + candidates_spec(cur@, filename@));
        }
    }
    out
}

} // verus!
