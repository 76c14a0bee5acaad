//! The managed-block editor: pure transforms on the target file's lines.
//!
//! A contiguous span delimited by the two marker lines is owned by this
//! system. `extract_preamble` removes every such span together with its
//! markers; `upsert` appends a fresh span holding the desired keys that the
//! preamble does not already contain. A start marker with no matching end
//! marker claims everything to the end of the file, so partial managed
//! content never leaks into the preamble.

use vstd::prelude::*;
use vstd::string::StrSliceExecFns;
use vstd::string::StringExecFns;

use crate::text::join_lines;
use crate::text::join_spec;
use crate::text::lines_spec;
use crate::text::split_lines;
use crate::text::str_eq;

verus! {

/// The line that opens the managed block.
pub open spec fn start_marker() -> Seq<char> {
    "# keyps: START"@
}

/// The line that closes the managed block.
pub open spec fn end_marker() -> Seq<char> {
    "# keyps: END"@
}

pub fn start_marker_line() -> (r: String)
    ensures
        r@ == start_marker(),
{
    String::from_str("# keyps: START")
}

pub fn end_marker_line() -> (r: String)
    ensures
        r@ == end_marker(),
{
    String::from_str("# keyps: END")
}

/// The lines of `ls` that lie outside any managed block, with the marker
/// lines themselves removed. `inside` says whether a block is open when
/// `ls` begins; an open block with no end marker runs to the end.
pub open spec fn strip_managed(ls: Seq<Seq<char>>, inside: bool) -> Seq<Seq<char>>
    decreases ls.len(),
{
    if ls.len() == 0 {
        Seq::empty()
    } else {
        let l = ls[0];
        let rest = ls.drop_first();
        if l == start_marker() {
            strip_managed(rest, true)
        } else if l == end_marker() {
            if inside {
                strip_managed(rest, false)
            } else {
                seq![l] + strip_managed(rest, false)
            }
        } else if inside {
            strip_managed(rest, true)
        } else {
            seq![l] + strip_managed(rest, false)
        }
    }
}

/// Whether a managed block is still open after all of `ls` is processed.
pub open spec fn managed_state(ls: Seq<Seq<char>>, inside: bool) -> bool
    decreases ls.len(),
{
    if ls.len() == 0 {
        inside
    } else {
        let l = ls[0];
        let rest = ls.drop_first();
        if l == start_marker() {
            managed_state(rest, true)
        } else if l == end_marker() {
            managed_state(rest, false)
        } else {
            managed_state(rest, inside)
        }
    }
}

/// Everything outside the managed block: the preamble.
pub open spec fn preamble_spec(ls: Seq<Seq<char>>) -> Seq<Seq<char>> {
    strip_managed(ls, false)
}

/// The keys of `ks`, in order, that do not yet occur as a line of `p`.
pub open spec fn keep_new(p: Seq<Seq<char>>, ks: Seq<Seq<char>>) -> Seq<Seq<char>>
    decreases ks.len(),
{
    if ks.len() == 0 {
        Seq::empty()
    } else if p.contains(ks[0]) {
        keep_new(p, ks.drop_first())
    } else {
        seq![ks[0]] + keep_new(p, ks.drop_first())
    }
}

/// The preamble followed by a fresh managed block holding the keys that the
/// preamble does not already contain, in their given order.
pub open spec fn upsert_spec(p: Seq<Seq<char>>, ks: Seq<Seq<char>>) -> Seq<Seq<char>> {
    p + seq![start_marker()] + keep_new(p, ks) + seq![end_marker()]
}

/// The two marker lines are distinct.
pub proof fn lemma_markers_differ()
    ensures
        start_marker() != end_marker(),
{
    reveal_strlit("# keyps: START");
    reveal_strlit("# keyps: END");
    assert(start_marker().len() != end_marker().len());
}

pub proof fn lemma_strip_concat(a: Seq<Seq<char>>, b: Seq<Seq<char>>, st: bool)
    ensures
        strip_managed(a + b, st) == strip_managed(a, st) + strip_managed(b, managed_state(a, st)),
        managed_state(a + b, st) == managed_state(b, managed_state(a, st)),
    decreases a.len(),
{
    if a.len() == 0 {
        assert(a + b =~= b);
        assert(strip_managed(a, st) + strip_managed(b, st) =~= strip_managed(b, st));
    } else {
        assert((a + b)[0] == a[0]);
        assert((a + b).drop_first() =~= a.drop_first() + b);
        let l = a[0];
        if l == start_marker() {
            lemma_strip_concat(a.drop_first(), b, true);
        } else if l == end_marker() {
            lemma_strip_concat(a.drop_first(), b, false);
            if !st {
                assert(strip_managed(a + b, st) =~= strip_managed(a, st) + strip_managed(
                    b,
                    managed_state(a, st),
                ));
            }
        } else {
            lemma_strip_concat(a.drop_first(), b, st);
            if !st {
                assert(strip_managed(a + b, st) =~= strip_managed(a, st) + strip_managed(
                    b,
                    managed_state(a, st),
                ));
            }
        }
    }
}

/// Lines holding no start marker pass through untouched with the block
/// still closed; a stray end marker outside a block is an ordinary line.
pub proof fn lemma_strip_no_start_identity(ls: Seq<Seq<char>>)
    requires
        forall|i: int| 0 <= i < ls.len() ==> ls[i] != start_marker(),
    ensures
        strip_managed(ls, false) == ls,
        managed_state(ls, false) == false,
    decreases ls.len(),
{
    if ls.len() == 0 {
        assert(strip_managed(ls, false) =~= ls);
    } else {
        assert(forall|i: int| 0 <= i < ls.drop_first().len() ==> ls.drop_first()[i] == ls[i + 1]);
        lemma_strip_no_start_identity(ls.drop_first());
        assert(strip_managed(ls, false) =~= seq![ls[0]] + ls.drop_first());
        assert(seq![ls[0]] + ls.drop_first() =~= ls);
    }
}

/// While a block is open and no end marker follows, everything is dropped
/// and the block stays open to the end of the file.
pub proof fn lemma_strip_all_inside(ls: Seq<Seq<char>>)
    requires
        forall|i: int| 0 <= i < ls.len() ==> ls[i] != end_marker(),
    ensures
        strip_managed(ls, true) == Seq::<Seq<char>>::empty(),
        managed_state(ls, true) == true,
    decreases ls.len(),
{
    if ls.len() == 0 {
        assert(strip_managed(ls, true) =~= Seq::<Seq<char>>::empty());
    } else {
        assert(forall|i: int| 0 <= i < ls.drop_first().len() ==> ls.drop_first()[i] == ls[i + 1]);
        lemma_strip_all_inside(ls.drop_first());
    }
}

/// The preamble never holds a start marker: those lines are always removed.
pub proof fn lemma_strip_has_no_start(ls: Seq<Seq<char>>, inside: bool)
    ensures
        forall|i: int|
            0 <= i < strip_managed(ls, inside).len() ==> strip_managed(ls, inside)[i]
                != start_marker(),
    decreases ls.len(),
{
    if ls.len() == 0 {
    } else {
        let l = ls[0];
        let rest = ls.drop_first();
        lemma_strip_has_no_start(rest, true);
        lemma_strip_has_no_start(rest, false);
        let r = strip_managed(ls, inside);
        assert forall|i: int| 0 <= i < r.len() implies r[i] != start_marker() by {
            if l == start_marker() {
                assert(r == strip_managed(rest, true));
            } else if l == end_marker() && inside {
                assert(r == strip_managed(rest, false));
            } else if l == end_marker() {
                assert(r == seq![l] + strip_managed(rest, false));
                if i > 0 {
                    assert(r[i] == strip_managed(rest, false)[i - 1]);
                }
            } else if inside {
                assert(r == strip_managed(rest, true));
            } else {
                assert(r == seq![l] + strip_managed(rest, false));
                if i > 0 {
                    assert(r[i] == strip_managed(rest, false)[i - 1]);
                }
            }
        }
    }
}

/// Everything `keep_new` keeps came from the given keys.
pub proof fn lemma_keep_new_elems(p: Seq<Seq<char>>, ks: Seq<Seq<char>>)
    ensures
        forall|x: Seq<char>| #[trigger] keep_new(p, ks).contains(x) ==> ks.contains(x),
    decreases ks.len(),
{
    if ks.len() == 0 {
    } else {
        lemma_keep_new_elems(p, ks.drop_first());
        assert forall|x: Seq<char>| #[trigger] keep_new(p, ks).contains(x) implies ks.contains(
            x,
        ) by {
            if p.contains(ks[0]) {
                assert(keep_new(p, ks) == keep_new(p, ks.drop_first()));
                assert(keep_new(p, ks.drop_first()).contains(x));
                assert(ks.drop_first().contains(x));
                let j = choose|j: int|
                    0 <= j < ks.drop_first().len() && ks.drop_first()[j] == x;
                assert(ks[j + 1] == x);
            } else {
                let s = seq![ks[0]] + keep_new(p, ks.drop_first());
                let j = choose|j: int| 0 <= j < s.len() && s[j] == x;
                if j == 0 {
                    assert(ks[0] == x);
                } else {
                    assert(keep_new(p, ks.drop_first())[j - 1] == x);
                    assert(keep_new(p, ks.drop_first()).contains(x));
                    let m = choose|m: int|
                        0 <= m < ks.drop_first().len() && ks.drop_first()[m] == x;
                    assert(ks[m + 1] == x);
                }
            }
        }
    }
}

/// A key already present verbatim in the preamble is never injected into
/// the managed block.
pub proof fn lemma_no_duplicate_injection(p: Seq<Seq<char>>, ks: Seq<Seq<char>>, k: Seq<char>)
    requires
        p.contains(k),
    ensures
        !keep_new(p, ks).contains(k),
    decreases ks.len(),
{
    if ks.len() == 0 {
    } else {
        lemma_no_duplicate_injection(p, ks.drop_first(), k);
        if !p.contains(ks[0]) {
            if keep_new(p, ks).contains(k) {
                let s = seq![ks[0]] + keep_new(p, ks.drop_first());
                let j = choose|j: int| 0 <= j < s.len() && s[j] == k;
                if j == 0 {
                    assert(ks[0] == k);
                    assert(false);
                } else {
                    assert(keep_new(p, ks.drop_first())[j - 1] == k);
                    assert(keep_new(p, ks.drop_first()).contains(k));
                    assert(false);
                }
            }
        }
    }
}

/// A file with no marker lines is its own preamble.
pub proof fn lemma_preamble_preserved(f: Seq<Seq<char>>)
    requires
        forall|i: int| 0 <= i < f.len() ==> f[i] != start_marker() && f[i] != end_marker(),
    ensures
        preamble_spec(f) == f,
{
    lemma_strip_no_start_identity(f);
}

/// `upsert` only appends: the given preamble stands unchanged at the front.
pub proof fn lemma_upsert_appends(p: Seq<Seq<char>>, ks: Seq<Seq<char>>)
    ensures
        upsert_spec(p, ks).len() >= p.len() + 2,
        upsert_spec(p, ks).take(p.len() as int) == p,
{
    assert(upsert_spec(p, ks).take(p.len() as int) =~= p);
}

/// A start marker with no matching end marker claims everything after it:
/// extracting the preamble recovers exactly the lines before the marker.
pub proof fn lemma_unterminated_block(a: Seq<Seq<char>>, b: Seq<Seq<char>>)
    requires
        forall|i: int| 0 <= i < a.len() ==> a[i] != start_marker() && a[i] != end_marker(),
        forall|i: int| 0 <= i < b.len() ==> b[i] != end_marker(),
    ensures
        preamble_spec(a + seq![start_marker()] + b) == a,
{
    let s = seq![start_marker()] + b;
    assert(a + seq![start_marker()] + b =~= a + s);
    lemma_strip_concat(a, s, false);
    lemma_strip_no_start_identity(a);
    assert(s[0] == start_marker());
    assert(s.drop_first() =~= b);
    lemma_strip_all_inside(b);
    assert(strip_managed(s, false) =~= Seq::<Seq<char>>::empty());
    assert(preamble_spec(a + seq![start_marker()] + b) =~= a);
}

/// Upserting the same keys against the result of a first upsert changes
/// nothing: the whole edit is idempotent, provided no key masquerades as
/// the end marker line.
pub proof fn lemma_upsert_idempotent(f: Seq<Seq<char>>, ks: Seq<Seq<char>>)
    requires
        forall|i: int| 0 <= i < ks.len() ==> ks[i] != end_marker(),
    ensures
        upsert_spec(preamble_spec(upsert_spec(preamble_spec(f), ks)), ks) == upsert_spec(
            preamble_spec(f),
            ks,
        ),
{
    let p = preamble_spec(f);
    let kn = keep_new(p, ks);
    let once = upsert_spec(p, ks);
    lemma_strip_has_no_start(f, false);
    let b = seq![start_marker()] + kn + seq![end_marker()];
    assert(once =~= p + b);
    lemma_strip_concat(p, b, false);
    lemma_strip_no_start_identity(p);
    // inside the fresh block nothing closes it early
    lemma_keep_new_elems(p, ks);
    assert forall|i: int| 0 <= i < kn.len() implies kn[i] != end_marker() by {
        assert(kn.contains(kn[i]));
        if kn[i] == end_marker() {
            assert(ks.contains(end_marker()));
            let j = choose|j: int| 0 <= j < ks.len() && ks[j] == end_marker();
        }
    }
    assert(b[0] == start_marker());
    assert(b.drop_first() =~= kn + seq![end_marker()]);
    lemma_strip_concat(kn, seq![end_marker()], true);
    lemma_strip_all_inside(kn);
    assert(strip_managed(seq![end_marker()], true) =~= Seq::<Seq<char>>::empty()) by {
        lemma_markers_differ();
        let s = seq![end_marker()];
        assert(s[0] == end_marker() && s[0] != start_marker());
        assert(s.drop_first() =~= Seq::<Seq<char>>::empty());
        assert(strip_managed(s, true) == strip_managed(s.drop_first(), false));
    }
    assert(strip_managed(b, false) =~= Seq::<Seq<char>>::empty());
    assert(preamble_spec(once) =~= p);
}

/// Whether some line of `lines` equals `l`, byte for byte.
pub fn contains_line(lines: &Vec<String>, l: &String) -> (r: bool)
    ensures
        r == lines.deep_view().contains(l@),
{
    let mut i: usize = 0;
    while i < lines.len()
        invariant
            i <= lines.len(),
            forall|j: int| 0 <= j < i ==> lines.deep_view()[j] != l@,
        decreases lines.len() - i,
    {
        if str_eq(lines[i].as_str(), l.as_str()) {
            proof {
                assert(lines.deep_view().contains(l@)) by {
                    assert(lines.deep_view()[i as int] == l@);
                }
            }
            return true;
        }
        i += 1;
    }
    false
}

/// Returns all lines with the managed block (markers and contents) removed.
pub fn extract_preamble(lines: &Vec<String>) -> (r: Vec<String>)
    ensures
        r.deep_view() == preamble_spec(lines.deep_view()),
{
    let ghost dv = lines.deep_view();
    let mut out: Vec<String> = Vec::new();
    let mut inside = false;
    let mut i: usize = 0;
    proof {
        assert(dv.skip(0) =~= dv);
        assert(out.deep_view() =~= Seq::<Seq<char>>::empty());
    }
    while i < lines.len()
        invariant
            i <= lines.len(),
            strip_managed(dv, false) == out.deep_view() + strip_managed(
                dv.skip(i as int),
                inside,
            ),
        decreases lines.len() - i,
    {
        let ghost rest = dv.skip(i as int);
        let ghost was_inside = inside;
        let ghost before = out.deep_view();
        proof {
            assert(rest[0] == dv[i as int]);
            assert(rest.drop_first() =~= dv.skip(i + 1));
        }
        let line = &lines[i];
        if str_eq(line.as_str(), "# keyps: START") {
            inside = true;
        } else if str_eq(line.as_str(), "# keyps: END") {
            if !inside {
                out.push(line.clone());
            }
            inside = false;
        } else if !inside {
            out.push(line.clone());
        }
        proof {
            if out.deep_view() != before {
                assert(out.deep_view() =~= before.push(dv[i as int]));
                assert(before + (seq![rest[0]] + strip_managed(rest.drop_first(), inside))
                    =~= out.deep_view() + strip_managed(dv.skip(i + 1), inside));
            }
        }
        i += 1;
    }
    proof {
        assert(dv.skip(lines.len() as int) =~= Seq::<Seq<char>>::empty());
        assert(strip_managed(dv, false) =~= out.deep_view());
    }
    out
}

/// Appends a fresh managed block to `preamble`: the start marker, each key
/// not already present verbatim in the preamble, then the end marker.
pub fn upsert(preamble: Vec<String>, keys: &Vec<String>) -> (r: Vec<String>)
    ensures
        r.deep_view() == upsert_spec(preamble.deep_view(), keys.deep_view()),
{
    let ghost p = preamble.deep_view();
    let ghost kdv = keys.deep_view();
    let mut fresh: Vec<String> = Vec::new();
    let mut i: usize = 0;
    proof {
        assert(kdv.skip(0) =~= kdv);
        assert(fresh.deep_view() =~= Seq::<Seq<char>>::empty());
    }
    while i < keys.len()
        invariant
            i <= keys.len(),
            keep_new(p, kdv) == fresh.deep_view() + keep_new(p, kdv.skip(i as int)),
        decreases keys.len() - i,
    {
        let ghost rest = kdv.skip(i as int);
        let ghost before = fresh.deep_view();
        proof {
            assert(rest[0] == kdv[i as int]);
            assert(rest.drop_first() =~= kdv.skip(i + 1));
        }
        if !contains_line(&preamble, &keys[i]) {
            fresh.push(keys[i].clone());
            proof {
                assert(fresh.deep_view() =~= before.push(kdv[i as int]));
                assert(before + (seq![rest[0]] + keep_new(p, rest.drop_first()))
                    =~= fresh.deep_view() + keep_new(p, kdv.skip(i + 1)));
            }
        }
        i += 1;
    }
    proof {
        assert(kdv.skip(keys.len() as int) =~= Seq::<Seq<char>>::empty());
        assert(keep_new(p, kdv) =~= fresh.deep_view());
    }
    let ghost fdv = fresh.deep_view();
    let mut out = preamble;
    out.push(start_marker_line());
    proof {
        assert(out.deep_view() =~= p.push(start_marker()));
    }
    let mut k: usize = 0;
    while k < fresh.len()
        invariant
            k <= fresh.len(),
            out.deep_view() == p.push(start_marker()) + fdv.take(k as int),
        decreases fresh.len() - k,
    {
        let ghost mid = out.deep_view();
        out.push(fresh[k].clone());
        proof {
            assert(out.deep_view() =~= mid.push(fdv[k as int]));
            assert(fdv.take(k + 1) =~= fdv.take(k as int).push(fdv[k as int]));
            assert(mid.push(fdv[k as int]) =~= p.push(start_marker()) + fdv.take(k + 1));
        }
        k += 1;
    }
    let ghost mid = out.deep_view();
    out.push(end_marker_line());
    proof {
        assert(fdv.take(fresh.len() as int) =~= fdv);
        assert(out.deep_view() =~= mid.push(end_marker()));
        assert(out.deep_view() =~= upsert_spec(p, kdv));
    }
    out
}

/// One whole edit of the file text: split into lines, drop any existing
/// managed block, append a fresh block with the new keys, and join back.
pub fn upsert_keys(content: &str, keys: &Vec<String>) -> (r: String)
    ensures
        r@ == join_spec(upsert_spec(preamble_spec(lines_spec(content@)), keys.deep_view())),
{
    let lines = split_lines(content);
    let pre = extract_preamble(&lines);
    let merged = upsert(pre, keys);
    join_lines(&merged)
}

/// The file text with the managed block and its markers fully removed;
/// used on shutdown to strip every injected key.
pub fn remove_managed_block(content: &str) -> (r: String)
    ensures
        r@ == join_spec(preamble_spec(lines_spec(content@))),
{
    let lines = split_lines(content);
    let pre = extract_preamble(&lines);
    join_lines(&pre)
}

} // verus!
