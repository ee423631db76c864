//! Sandbox-relative path resolution. A request path is split on `/`,
//! empty and `.` segments are dropped, and `..` pops one segment; a `..`
//! with nothing left to pop escapes the sandbox and is rejected.

use vstd::prelude::*;
use vstd::string::*;
use crate::env_map::clone_string;
use crate::strutil::str_eq;

verus! {

/// The views of a list of segment strings.
pub open spec fn segs_view(v: Seq<String>) -> Seq<Seq<char>> {
    v.map_values(|s: String| s@)
}

/// Splitting on `/`, keeping empty segments (so `"a//b"` gives an empty
/// middle segment, and the empty path gives one empty segment).
pub open spec fn split_slashes(p: Seq<char>) -> Seq<Seq<char>>
    decreases p.len(),
{
    if p.len() == 0 {
        seq![Seq::<char>::empty()]
    } else if p.last() == '/' {
        split_slashes(p.drop_last()).push(Seq::<char>::empty())
    } else {
        let r = split_slashes(p.drop_last());
        r.update(r.len() - 1, r.last().push(p.last()))
    }
}

/// One normalization step: empty and `.` segments vanish, `..` pops, and
/// an impossible pop (or an earlier escape) poisons the whole path.
pub open spec fn norm_step(acc: Option<Seq<Seq<char>>>, seg: Seq<char>) -> Option<Seq<Seq<char>>> {
    match acc {
        Option::None => Option::None,
        Option::Some(a) => {
            if seg.len() == 0 || seg == seq!['.'] {
                Option::Some(a)
            } else if seg == seq!['.', '.'] {
                if a.len() == 0 {
                    Option::None
                } else {
                    Option::Some(a.drop_last())
                }
            } else {
                Option::Some(a.push(seg))
            }
        },
    }
}

/// Folds `norm_step` over the segments, left to right.
pub open spec fn norm_segs(segs: Seq<Seq<char>>) -> Option<Seq<Seq<char>>>
    decreases segs.len(),
{
    if segs.len() == 0 {
        Option::Some(Seq::empty())
    } else {
        norm_step(norm_segs(segs.drop_last()), segs.last())
    }
}

/// The canonical segments a request path resolves to inside the sandbox,
/// or nothing when the path escapes it.
pub open spec fn path_segments(p: Seq<char>) -> Option<Seq<Seq<char>>> {
    norm_segs(split_slashes(p))
}

proof fn lemma_norm_prefix_none(segs: Seq<Seq<char>>, k: int)
    requires
        0 <= k <= segs.len(),
        norm_segs(segs.take(k)) is None,
    ensures
        norm_segs(segs) is None,
    decreases segs.len() - k,
{
    if k < segs.len() {
        assert(segs.take(k + 1).drop_last() =~= segs.take(k));
        assert(norm_segs(segs.take(k + 1)) is None);
        lemma_norm_prefix_none(segs, k + 1);
    } else {
        assert(segs.take(k) =~= segs);
    }
}

/// Resolves a request path to its canonical segments; `None` means the
/// path escapes the sandbox.
pub fn normalize_path(p: &str) -> (r: Option<Vec<String>>)
    ensures
        match r {
            Some(v) => path_segments(p@) == Some(segs_view(v@)),
            None => path_segments(p@) is None,
        },
{
    let n = p.unicode_len();
    let mut raw: Vec<String> = Vec::new();
    let mut start: usize = 0;
    let mut i: usize = 0;
    while i < n
        invariant
            0 <= start <= i <= n,
            n == p@.len(),
            split_slashes(p@.take(i as int)) =~~= segs_view(raw@).push(
                p@.subrange(start as int, i as int),
            ),
        decreases n - i,
    {
        proof {
            assert(p@.take(i + 1 as int).drop_last() =~= p@.take(i as int));
            assert(p@.take(i + 1 as int).last() == p@[i as int]);
        }
        if p.get_char(i) == '/' {
            let seg = p.substring_char(start, i).to_owned();
            raw.push(seg);
            start = i + 1;
            proof {
                assert(segs_view(raw@) =~= segs_view(raw@.drop_last()).push(raw@.last()@));
                assert(split_slashes(p@.take(i + 1 as int)) =~~= segs_view(raw@).push(
                    p@.subrange(start as int, i + 1 as int),
                ));
            }
        } else {
            proof {
                let old_split = split_slashes(p@.take(i as int));
                assert(old_split.last() == p@.subrange(start as int, i as int));
                assert(p@.subrange(start as int, i as int).push(p@[i as int]) =~= p@.subrange(
                    start as int,
                    i + 1 as int,
                ));
                assert(split_slashes(p@.take(i + 1 as int)) =~~= segs_view(raw@).push(
                    p@.subrange(start as int, i + 1 as int),
                ));
            }
        }
        i = i + 1;
    }
    let last_seg = p.substring_char(start, n).to_owned();
    raw.push(last_seg);
    proof {
        assert(p@.take(n as int) =~= p@);
        assert(segs_view(raw@) =~= segs_view(raw@.drop_last()).push(raw@.last()@));
        assert(split_slashes(p@) =~~= segs_view(raw@));
    }
    let m = raw.len();
    let mut acc: Vec<String> = Vec::new();
    let mut k: usize = 0;
    while k < m
        invariant
            0 <= k <= m,
            m == raw@.len(),
            split_slashes(p@) == segs_view(raw@),
            norm_segs(segs_view(raw@).take(k as int)) == Some(segs_view(acc@)),
        decreases m - k,
    {
        proof {
            assert(segs_view(raw@).take(k + 1 as int).drop_last() =~= segs_view(raw@).take(
                k as int,
            ));
            assert(segs_view(raw@).take(k + 1 as int).last() == raw@[k as int]@);
            reveal_strlit(".");
            reveal_strlit("..");
            assert("."@ =~= seq!['.']);
            assert(".."@ =~= seq!['.', '.']);
        }
        let seg = &raw[k];
        if seg.unicode_len() == 0 || str_eq(seg.as_str(), ".") {
            proof {
                assert(norm_segs(segs_view(raw@).take(k + 1 as int)) == Some(segs_view(acc@)));
            }
        } else if str_eq(seg.as_str(), "..") {
            if acc.len() == 0 {
                proof {
                    assert(norm_segs(segs_view(raw@).take(k + 1 as int)) is None);
                    lemma_norm_prefix_none(segs_view(raw@), k + 1);
                }
                return None;
            }
            let ghost before = acc@;
            let _ = acc.pop();
            proof {
                assert(acc@ =~= before.drop_last());
                assert(segs_view(acc@) =~= segs_view(before).drop_last());
                assert(norm_segs(segs_view(raw@).take(k + 1 as int)) == Some(segs_view(acc@)));
            }
        } else {
            acc.push(clone_string(seg));
            proof {
                assert(segs_view(acc@) =~= segs_view(acc@.drop_last()).push(raw@[k as int]@));
                assert(norm_segs(segs_view(raw@).take(k + 1 as int)) == Some(segs_view(acc@)));
            }
        }
        k = k + 1;
    }
    proof {
        assert(segs_view(raw@).take(m as int) =~= segs_view(raw@));
    }
    Some(acc)
}

/// The host-side rendering `/seg1/seg2/...` of canonical segments; the
/// root is the empty rendering.
pub open spec fn joined_path(segs: Seq<Seq<char>>) -> Seq<char>
    decreases segs.len(),
{
    if segs.len() == 0 {
        Seq::empty()
    } else {
        joined_path(segs.drop_last()) + "/"@ + segs.last()
    }
}

/// Renders canonical segments as `/seg1/seg2/...`.
pub fn join_segments(v: &Vec<String>) -> (r: String)
    ensures
        r@ == joined_path(segs_view(v@)),
{
    let n = v.len();
    let mut r = String::new();
    let mut i: usize = 0;
    while i < n
        invariant
            0 <= i <= n,
            n == v@.len(),
            r@ =~= joined_path(segs_view(v@).take(i as int)),
        decreases n - i,
    {
        r.append("/");
        r.append(v[i].as_str());
        proof {
            assert(segs_view(v@).take(i + 1 as int).drop_last() =~= segs_view(v@).take(i as int));
            assert(r@ =~= joined_path(segs_view(v@).take(i + 1 as int)));
        }
        i = i + 1;
    }
    proof {
        assert(segs_view(v@).take(n as int) =~= segs_view(v@));
    }
    r
}

} // verus!
