//! The segmentation lattice and its search.
//!
//! A path is a run of dictionary entries whose readings tile the composing
//! buffer from position 0 up to some end position; its surface is the
//! concatenation of the entries' surface forms and its cost is the sum of
//! the scorer's per-edge costs. `paths_from` enumerates every path in a
//! fixed canonical order; the search sorts them best-first (lower cost
//! first, then more buffer coverage, then lexicographically smaller
//! surface) and keeps the best `MAX_CANDIDATES`.

use vstd::arithmetic::mul::*;
use vstd::prelude::*;

use crate::composing::ComposingText;
use crate::dictionary::{Dictionary, DictionaryEntry};
use crate::scorer::{Scorer, STEP_COST_BOUND};

verus! {

/// Maximum number of ranked candidates a request returns.
pub const MAX_CANDIDATES: usize = 20;

/// Maximum buffer length a conversion request accepts; keeps every path
/// cost within `u64` and every coverage count within `i32`.
pub const MAX_COMPOSING_LEN: usize = 0x4000_0000;

/// Description of one lattice path: the concatenated surface text, the end
/// position of its last node (the number of buffer units it covers, counted
/// from 0), and its total cost.
pub struct PathInfo {
    pub surface: Seq<char>,
    pub end: int,
    pub cost: int,
}

/// `e`'s reading covers the buffer span starting at `start`.
pub open spec fn entry_matches_at(e: DictionaryEntry, buf: Seq<char>, start: int) -> bool {
    &&& 1 <= e.key@.len()
    &&& start + e.key@.len() <= buf.len()
    &&& buf.subrange(start, start + e.key@.len() as int) == e.key@
}

/// Prefixing a path with entry `e`, whose own edge cost is `head_cost`:
/// the surface is prefixed, the end position is the tail's, costs add.
pub open spec fn extend_path(e: DictionaryEntry, head_cost: int, p: PathInfo) -> PathInfo {
    PathInfo { surface: e.surface@ + p.surface, end: p.end, cost: head_cost + p.cost }
}

/// Every lattice path beginning at buffer position `start`, where the
/// preceding word class is `prev`, considering first segments drawn from
/// dictionary index `i` onward, in canonical order: for each matching entry,
/// the single-segment path, then all its extensions, then the paths whose
/// first segment comes later in the dictionary.
pub open spec fn paths_from(
    dict: Seq<DictionaryEntry>,
    sc: Scorer,
    buf: Seq<char>,
    start: int,
    prev: u32,
    i: int,
) -> Seq<PathInfo>
    decreases buf.len() - start, dict.len() - i,
        when 0 <= start <= buf.len() && 0 <= i <= dict.len()
{
    if i >= dict.len() {
        Seq::empty()
    } else {
        let rest = paths_from(dict, sc, buf, start, prev, i + 1);
        let e = dict[i];
        if entry_matches_at(e, buf, start) {
            let end0 = start + e.key@.len() as int;
            let c0 = sc.step_cost(prev, e);
            let single = PathInfo { surface: e.surface@, end: end0, cost: c0 };
            let exts = paths_from(dict, sc, buf, end0, e.word_class, 0).map(
                |k: int, p: PathInfo| extend_path(e, c0, p),
            );
            seq![single] + exts + rest
        } else {
            rest
        }
    }
}

/// The full path set for a buffer against a dictionary, scorer and left
/// context.
pub open spec fn all_paths(
    dict: Seq<DictionaryEntry>,
    sc: Scorer,
    buf: Seq<char>,
    ctx: Seq<char>,
) -> Seq<PathInfo> {
    paths_from(dict, sc, buf, 0, crate::scorer::spec_context_class(ctx), 0)
}

/// A path starting at `start` in a buffer of length `len` covers at least
/// one more unit, stays within the buffer, and its cost is non-negative and
/// bounded by one `STEP_COST_BOUND` per covered unit.
pub open spec fn path_bounded(p: PathInfo, start: int, len: int) -> bool {
    &&& start + 1 <= p.end <= len
    &&& 0 <= p.cost <= (p.end - start) * (STEP_COST_BOUND as int)
}

/// Every enumerated path is bounded as `path_bounded` says.
#[verifier::rlimit(50)]
pub proof fn lemma_paths_from_bounded(
    dict: Seq<DictionaryEntry>,
    sc: Scorer,
    buf: Seq<char>,
    start: int,
    prev: u32,
    i: int,
)
    requires
        0 <= start <= buf.len(),
        0 <= i <= dict.len(),
    ensures
        forall|k: int| 0 <= k < paths_from(dict, sc, buf, start, prev, i).len() ==> path_bounded(
            #[trigger] paths_from(dict, sc, buf, start, prev, i)[k],
            start,
            buf.len() as int,
        ),
    decreases buf.len() - start, dict.len() - i,
{
    if i >= dict.len() {
    } else {
        lemma_paths_from_bounded(dict, sc, buf, start, prev, i + 1);
        let e = dict[i];
        if entry_matches_at(e, buf, start) {
            let end0 = start + e.key@.len() as int;
            let c0 = sc.step_cost(prev, e);
            let single = PathInfo { surface: e.surface@, end: end0, cost: c0 };
            let tail = paths_from(dict, sc, buf, end0, e.word_class, 0);
            let exts = tail.map(|k: int, p: PathInfo| extend_path(e, c0, p));
            let rest = paths_from(dict, sc, buf, start, prev, i + 1);
            lemma_paths_from_bounded(dict, sc, buf, end0, e.word_class, 0);
            sc.lemma_step_cost_bound(prev, e);
            let b = STEP_COST_BOUND as int;
            assert(path_bounded(single, start, buf.len() as int)) by {
                assert((end0 - start) * b >= 1 * b) by {
                    lemma_mul_inequality(1, end0 - start, b);
                }
            }
            assert forall|k: int| 0 <= k < exts.len() implies path_bounded(
                #[trigger] exts[k],
                start,
                buf.len() as int,
            ) by {
                assert(path_bounded(tail[k], end0, buf.len() as int));
                let q = tail[k];
                assert((q.end - start) * b == (q.end - end0) * b + (end0 - start) * b) by {
                    lemma_mul_is_distributive_add_other_way(b, q.end - end0, end0 - start);
                }
                assert((end0 - start) * b >= 1 * b) by {
                    lemma_mul_inequality(1, end0 - start, b);
                }
            }
            assert(paths_from(dict, sc, buf, start, prev, i) == seq![single] + exts + rest);
            assert forall|k: int| 0 <= k < paths_from(dict, sc, buf, start, prev, i).len()
                implies path_bounded(
                #[trigger] paths_from(dict, sc, buf, start, prev, i)[k],
                start,
                buf.len() as int,
            ) by {
                if k == 0 {
                } else if k < 1 + exts.len() {
                    assert(paths_from(dict, sc, buf, start, prev, i)[k] == exts[k - 1]);
                } else {
                    assert(paths_from(dict, sc, buf, start, prev, i)[k] == rest[k - 1
                        - exts.len()]);
                }
            }
        } else {
            assert(paths_from(dict, sc, buf, start, prev, i) == paths_from(
                dict,
                sc,
                buf,
                start,
                prev,
                i + 1,
            ));
        }
    }
}

/// `segs` lists dictionary indices whose readings tile the buffer from
/// `start` to `end`, each segment's reading starting where the previous one
/// ended.
pub open spec fn is_segmentation(
    dict: Seq<DictionaryEntry>,
    buf: Seq<char>,
    segs: Seq<int>,
    start: int,
    end: int,
) -> bool
    decreases segs.len(),
{
    if segs.len() == 0 {
        start == end
    } else {
        &&& 0 <= segs[0] < dict.len()
        &&& entry_matches_at(dict[segs[0]], buf, start)
        &&& is_segmentation(
            dict,
            buf,
            segs.drop_first(),
            start + dict[segs[0]].key@.len(),
            end,
        )
    }
}

/// The surface text a segmentation renders: its entries' surface forms,
/// concatenated.
pub open spec fn seg_surface(dict: Seq<DictionaryEntry>, segs: Seq<int>) -> Seq<char>
    decreases segs.len(),
{
    if segs.len() == 0 {
        Seq::empty()
    } else {
        dict[segs[0]].surface@ + seg_surface(dict, segs.drop_first())
    }
}

/// The total cost of a segmentation: each entry's edge cost, conditioned on
/// the class before it.
pub open spec fn seg_cost(dict: Seq<DictionaryEntry>, sc: Scorer, segs: Seq<int>, prev: u32) -> int
    decreases segs.len(),
{
    if segs.len() == 0 {
        0
    } else {
        sc.step_cost(prev, dict[segs[0]]) + seg_cost(
            dict,
            sc,
            segs.drop_first(),
            dict[segs[0]].word_class,
        )
    }
}

/// `p` is realized by an actual segmentation: some non-empty tiling of the
/// buffer from `start` to `p.end` renders exactly `p`'s surface at exactly
/// `p`'s cost.
pub open spec fn path_realized(
    dict: Seq<DictionaryEntry>,
    sc: Scorer,
    buf: Seq<char>,
    start: int,
    prev: u32,
    p: PathInfo,
) -> bool {
    exists|segs: Seq<int>|
        {
            &&& #[trigger] is_segmentation(dict, buf, segs, start, p.end)
            &&& segs.len() >= 1
            &&& p.surface == seg_surface(dict, segs)
            &&& p.cost == seg_cost(dict, sc, segs, prev)
        }
}

/// Soundness of the enumeration: every enumerated path is realized by an
/// actual tiling of the buffer by dictionary readings; no candidate is
/// invented.
pub proof fn lemma_paths_from_sound(
    dict: Seq<DictionaryEntry>,
    sc: Scorer,
    buf: Seq<char>,
    start: int,
    prev: u32,
    i: int,
)
    requires
        0 <= start <= buf.len(),
        0 <= i <= dict.len(),
    ensures
        forall|k: int| 0 <= k < paths_from(dict, sc, buf, start, prev, i).len() ==> path_realized(
            dict,
            sc,
            buf,
            start,
            prev,
            #[trigger] paths_from(dict, sc, buf, start, prev, i)[k],
        ),
    decreases buf.len() - start, dict.len() - i,
{
    if i >= dict.len() {
    } else {
        lemma_paths_from_sound(dict, sc, buf, start, prev, i + 1);
        let e = dict[i];
        let rest = paths_from(dict, sc, buf, start, prev, i + 1);
        if entry_matches_at(e, buf, start) {
            let end0 = start + e.key@.len() as int;
            let c0 = sc.step_cost(prev, e);
            let single = PathInfo { surface: e.surface@, end: end0, cost: c0 };
            let tail = paths_from(dict, sc, buf, end0, e.word_class, 0);
            let exts = tail.map(|k: int, p: PathInfo| extend_path(e, c0, p));
            lemma_paths_from_sound(dict, sc, buf, end0, e.word_class, 0);
            assert(path_realized(dict, sc, buf, start, prev, single)) by {
                reveal_with_fuel(is_segmentation, 2);
                reveal_with_fuel(seg_surface, 2);
                reveal_with_fuel(seg_cost, 2);
                let segs = seq![i];
                assert(segs.drop_first() =~= Seq::<int>::empty());
                assert(is_segmentation(dict, buf, segs, start, single.end));
                assert(e.surface@ + Seq::<char>::empty() =~= e.surface@);
                assert(single.surface == seg_surface(dict, segs));
                assert(single.cost == seg_cost(dict, sc, segs, prev));
            }
            assert forall|k: int| 0 <= k < exts.len() implies path_realized(
                dict,
                sc,
                buf,
                start,
                prev,
                #[trigger] exts[k],
            ) by {
                let q = tail[k];
                assert(path_realized(dict, sc, buf, end0, e.word_class, q));
                let tsegs = choose|tsegs: Seq<int>|
                    {
                        &&& #[trigger] is_segmentation(dict, buf, tsegs, end0, q.end)
                        &&& tsegs.len() >= 1
                        &&& q.surface == seg_surface(dict, tsegs)
                        &&& q.cost == seg_cost(dict, sc, tsegs, e.word_class)
                    };
                let segs = seq![i] + tsegs;
                assert(segs.drop_first() =~= tsegs);
                assert(exts[k] == extend_path(e, c0, q));
                assert(seg_surface(dict, segs) == e.surface@ + seg_surface(dict, tsegs));
                assert(seg_cost(dict, sc, segs, prev) == c0 + seg_cost(
                    dict,
                    sc,
                    tsegs,
                    e.word_class,
                ));
                assert(is_segmentation(dict, buf, segs, start, exts[k].end));
                assert(exts[k].surface == seg_surface(dict, segs));
                assert(exts[k].cost == seg_cost(dict, sc, segs, prev));
            }
            assert(paths_from(dict, sc, buf, start, prev, i) == seq![single] + exts + rest);
            assert forall|k: int| 0 <= k < paths_from(dict, sc, buf, start, prev, i).len()
                implies path_realized(
                dict,
                sc,
                buf,
                start,
                prev,
                #[trigger] paths_from(dict, sc, buf, start, prev, i)[k],
            ) by {
                if k == 0 {
                } else if k < 1 + exts.len() {
                    assert(paths_from(dict, sc, buf, start, prev, i)[k] == exts[k - 1]);
                } else {
                    assert(paths_from(dict, sc, buf, start, prev, i)[k] == rest[k - 1
                        - exts.len()]);
                }
            }
        } else {
            assert(paths_from(dict, sc, buf, start, prev, i) == rest);
        }
    }
}

/// Membership in the enumeration through one matching first segment `j`:
/// the single-segment path of `j` is enumerated, and so is every extension
/// of an enumerated tail path.
proof fn lemma_paths_from_step(
    dict: Seq<DictionaryEntry>,
    sc: Scorer,
    buf: Seq<char>,
    start: int,
    prev: u32,
    i: int,
    j: int,
)
    requires
        0 <= start <= buf.len(),
        0 <= i <= j < dict.len(),
        entry_matches_at(dict[j], buf, start),
    ensures
        paths_from(dict, sc, buf, start, prev, i).contains(
            PathInfo {
                surface: dict[j].surface@,
                end: start + dict[j].key@.len(),
                cost: sc.step_cost(prev, dict[j]),
            },
        ),
        forall|q: PathInfo|
            paths_from(dict, sc, buf, start + dict[j].key@.len(), dict[j].word_class, 0).contains(
                q,
            ) ==> paths_from(dict, sc, buf, start, prev, i).contains(
                #[trigger] extend_path(dict[j], sc.step_cost(prev, dict[j]), q),
            ),
    decreases j - i,
{
    let e = dict[j];
    let c0 = sc.step_cost(prev, e);
    let single = PathInfo { surface: e.surface@, end: start + e.key@.len(), cost: c0 };
    let tail = paths_from(dict, sc, buf, start + e.key@.len(), e.word_class, 0);
    let here = paths_from(dict, sc, buf, start, prev, i);
    if i == j {
        let exts = tail.map(|k: int, p: PathInfo| extend_path(e, c0, p));
        let rest = paths_from(dict, sc, buf, start, prev, i + 1);
        assert(here == seq![single] + exts + rest);
        assert(here[0] == single);
        assert(here.contains(single));
        assert forall|q: PathInfo| tail.contains(q) implies here.contains(
            #[trigger] extend_path(e, c0, q),
        ) by {
            let idx = choose|idx: int| 0 <= idx < tail.len() && tail[idx] == q;
            assert(exts[idx] == extend_path(e, c0, q));
            assert(here[1 + idx] == extend_path(e, c0, q));
        }
    } else {
        lemma_paths_from_step(dict, sc, buf, start, prev, i + 1, j);
        let next = paths_from(dict, sc, buf, start, prev, i + 1);
        assert forall|q: PathInfo| next.contains(q) implies here.contains(q) by {
            let idx = choose|idx: int| 0 <= idx < next.len() && next[idx] == q;
            if entry_matches_at(dict[i], buf, start) {
                let ci = sc.step_cost(prev, dict[i]);
                let singlei = PathInfo {
                    surface: dict[i].surface@,
                    end: start + dict[i].key@.len(),
                    cost: ci,
                };
                let extsi = paths_from(
                    dict,
                    sc,
                    buf,
                    start + dict[i].key@.len(),
                    dict[i].word_class,
                    0,
                ).map(|k: int, p: PathInfo| extend_path(dict[i], ci, p));
                assert(here == seq![singlei] + extsi + next);
                assert(here[1 + extsi.len() + idx] == q);
            } else {
                assert(here == next);
            }
        }
        assert(next.contains(single));
        assert forall|q: PathInfo| tail.contains(q) implies here.contains(
            #[trigger] extend_path(e, c0, q),
        ) by {
            assert(next.contains(extend_path(e, c0, q)));
        }
    }
}

/// Completeness of the enumeration: every segmentation of the buffer is
/// enumerated as a path, with its surface and its cost; no candidate is
/// missed.
pub proof fn lemma_paths_from_complete(
    dict: Seq<DictionaryEntry>,
    sc: Scorer,
    buf: Seq<char>,
    start: int,
    prev: u32,
    segs: Seq<int>,
    end: int,
)
    requires
        0 <= start <= buf.len(),
        segs.len() >= 1,
        is_segmentation(dict, buf, segs, start, end),
    ensures
        paths_from(dict, sc, buf, start, prev, 0).contains(
            PathInfo {
                surface: seg_surface(dict, segs),
                end: end,
                cost: seg_cost(dict, sc, segs, prev),
            },
        ),
    decreases segs.len(),
{
    let j = segs[0];
    let e = dict[j];
    let end0 = start + e.key@.len() as int;
    let c0 = sc.step_cost(prev, e);
    lemma_paths_from_step(dict, sc, buf, start, prev, 0, j);
    if segs.len() == 1 {
        reveal_with_fuel(is_segmentation, 2);
        reveal_with_fuel(seg_surface, 2);
        reveal_with_fuel(seg_cost, 2);
        assert(segs.drop_first() =~= Seq::<int>::empty());
        assert(end0 == end);
        assert(seg_surface(dict, segs) =~= e.surface@);
        assert(seg_cost(dict, sc, segs, prev) == c0);
    } else {
        let tsegs = segs.drop_first();
        assert(is_segmentation(dict, buf, tsegs, end0, end));
        lemma_paths_from_complete(dict, sc, buf, end0, e.word_class, tsegs, end);
        let q = PathInfo {
            surface: seg_surface(dict, tsegs),
            end: end,
            cost: seg_cost(dict, sc, tsegs, e.word_class),
        };
        assert(extend_path(e, c0, q) == PathInfo {
            surface: seg_surface(dict, segs),
            end: end,
            cost: seg_cost(dict, sc, segs, prev),
        });
    }
}

/// Lexicographic order on surface text, by code point.
pub open spec fn lex_le(a: Seq<char>, b: Seq<char>) -> bool
    decreases a.len(),
{
    if a.len() == 0 {
        true
    } else if b.len() == 0 {
        false
    } else if (a[0] as u32) < (b[0] as u32) {
        true
    } else if (a[0] as u32) > (b[0] as u32) {
        false
    } else {
        lex_le(a.drop_first(), b.drop_first())
    }
}

/// `lex_le` is total.
pub proof fn lemma_lex_le_total(a: Seq<char>, b: Seq<char>)
    ensures
        lex_le(a, b) || lex_le(b, a),
    decreases a.len(),
{
    if a.len() > 0 && b.len() > 0 && a[0] as u32 == b[0] as u32 {
        lemma_lex_le_total(a.drop_first(), b.drop_first());
    }
}

/// `lex_le` is transitive.
pub proof fn lemma_lex_le_trans(a: Seq<char>, b: Seq<char>, c: Seq<char>)
    requires
        lex_le(a, b),
        lex_le(b, c),
    ensures
        lex_le(a, c),
    decreases a.len(),
{
    if a.len() > 0 && b.len() > 0 && c.len() > 0 && a[0] as u32 == b[0] as u32 && b[0] as u32
        == c[0] as u32 {
        lemma_lex_le_trans(a.drop_first(), b.drop_first(), c.drop_first());
    }
}

/// Ranking order on paths: lower cost first; on equal cost, more buffer
/// coverage first; on equal coverage, lexicographically smaller surface
/// first.
pub open spec fn path_le(a: PathInfo, b: PathInfo) -> bool {
    ||| a.cost < b.cost
    ||| (a.cost == b.cost && a.end > b.end)
    ||| (a.cost == b.cost && a.end == b.end && lex_le(a.surface, b.surface))
}

/// `path_le` is total.
pub proof fn lemma_path_le_total(a: PathInfo, b: PathInfo)
    ensures
        path_le(a, b) || path_le(b, a),
{
    if a.cost == b.cost && a.end == b.end {
        lemma_lex_le_total(a.surface, b.surface);
    }
}

/// `path_le` is transitive.
pub proof fn lemma_path_le_trans(a: PathInfo, b: PathInfo, c: PathInfo)
    requires
        path_le(a, b),
        path_le(b, c),
    ensures
        path_le(a, c),
{
    if a.cost == b.cost && b.cost == c.cost && a.end == b.end && b.end == c.end {
        lemma_lex_le_trans(a.surface, b.surface, c.surface);
    }
}

/// The sequence is ranked best-first.
pub open spec fn sorted_by_rank(s: Seq<PathInfo>) -> bool {
    forall|i: int, j: int| 0 <= i < j < s.len() ==> path_le(s[i], s[j])
}

/// `p` placed at its rank within an already ranked sequence.
pub open spec fn insert_ranked(p: PathInfo, s: Seq<PathInfo>) -> Seq<PathInfo>
    decreases s.len(),
{
    if s.len() == 0 {
        seq![p]
    } else if path_le(p, s[0]) {
        seq![p] + s
    } else {
        seq![s[0]] + insert_ranked(p, s.drop_first())
    }
}

/// The canonical ranking of a path sequence: insertion sort under `path_le`.
/// A pure function of its input, so the ranking is deterministic.
pub open spec fn rank_sort(s: Seq<PathInfo>) -> Seq<PathInfo>
    decreases s.len(),
{
    if s.len() == 0 {
        Seq::empty()
    } else {
        insert_ranked(s[0], rank_sort(s.drop_first()))
    }
}

/// `insert_ranked` adds exactly `p`: any property holding of `p` and of
/// every element of `s` holds of every element of the result.
pub proof fn lemma_insert_ranked_all(p: PathInfo, s: Seq<PathInfo>, pred: spec_fn(PathInfo) -> bool)
    requires
        pred(p),
        forall|k: int| 0 <= k < s.len() ==> pred(#[trigger] s[k]),
    ensures
        insert_ranked(p, s).len() == s.len() + 1,
        forall|k: int| 0 <= k < insert_ranked(p, s).len() ==> pred(#[trigger] insert_ranked(p, s)[k]),
    decreases s.len(),
{
    if s.len() == 0 {
    } else if path_le(p, s[0]) {
    } else {
        lemma_insert_ranked_all(p, s.drop_first(), pred);
    }
}

/// Inserting into a ranked sequence keeps it ranked.
pub proof fn lemma_insert_ranked_sorted(p: PathInfo, s: Seq<PathInfo>)
    requires
        sorted_by_rank(s),
    ensures
        sorted_by_rank(insert_ranked(p, s)),
    decreases s.len(),
{
    if s.len() == 0 {
    } else if path_le(p, s[0]) {
        let r = seq![p] + s;
        assert forall|i: int, j: int| 0 <= i < j < r.len() implies path_le(r[i], r[j]) by {
            if i == 0 && j > 1 {
                assert(path_le(s[0], s[j - 1]));
                lemma_path_le_trans(p, s[0], s[j - 1]);
            }
        }
    } else {
        lemma_path_le_total(p, s[0]);
        assert(sorted_by_rank(s.drop_first()));
        lemma_insert_ranked_sorted(p, s.drop_first());
        lemma_insert_ranked_all(
            p,
            s.drop_first(),
            |q: PathInfo| path_le(s[0], q),
        );
        let r = seq![s[0]] + insert_ranked(p, s.drop_first());
        assert forall|i: int, j: int| 0 <= i < j < r.len() implies path_le(r[i], r[j]) by {
            if i > 0 {
                assert(r[i] == insert_ranked(p, s.drop_first())[i - 1]);
                assert(r[j] == insert_ranked(p, s.drop_first())[j - 1]);
            }
        }
    }
}

/// The canonical ranking is ranked best-first.
pub proof fn lemma_rank_sort_sorted(s: Seq<PathInfo>)
    ensures
        sorted_by_rank(rank_sort(s)),
    decreases s.len(),
{
    if s.len() > 0 {
        lemma_rank_sort_sorted(s.drop_first());
        lemma_insert_ranked_sorted(s[0], rank_sort(s.drop_first()));
    }
}

/// Ranking preserves any per-element property, and the length.
pub proof fn lemma_rank_sort_all(s: Seq<PathInfo>, pred: spec_fn(PathInfo) -> bool)
    requires
        forall|k: int| 0 <= k < s.len() ==> pred(#[trigger] s[k]),
    ensures
        rank_sort(s).len() == s.len(),
        forall|k: int| 0 <= k < rank_sort(s).len() ==> pred(#[trigger] rank_sort(s)[k]),
    decreases s.len(),
{
    if s.len() > 0 {
        lemma_rank_sort_all(s.drop_first(), pred);
        lemma_insert_ranked_all(s[0], rank_sort(s.drop_first()), pred);
    }
}

/// Inserting at rank adds exactly one occurrence of `p`.
proof fn lemma_insert_ranked_multiset(p: PathInfo, s: Seq<PathInfo>)
    ensures
        insert_ranked(p, s).to_multiset() == s.to_multiset().insert(p),
    decreases s.len(),
{
    broadcast use vstd::multiset::group_multiset_axioms;

    if s.len() == 0 {
        assert(s =~= Seq::<PathInfo>::empty());
        assert(seq![p] =~= s.push(p));
        vstd::seq_lib::to_multiset_build(s, p);
    } else if path_le(p, s[0]) {
        assert(seq![p] + s =~= s.insert(0, p));
        vstd::seq_lib::to_multiset_insert(s, 0, p);
    } else {
        let d = s.drop_first();
        lemma_insert_ranked_multiset(p, d);
        let r = insert_ranked(p, d);
        assert(seq![s[0]] + r =~= r.insert(0, s[0]));
        vstd::seq_lib::to_multiset_insert(r, 0, s[0]);
        assert(s =~= d.insert(0, s[0]));
        vstd::seq_lib::to_multiset_insert(d, 0, s[0]);
        assert(d.to_multiset().insert(p).insert(s[0]) =~= d.to_multiset().insert(s[0]).insert(p));
    }
}

/// The canonical ranking is a permutation of the enumerated paths: ranking
/// neither drops, duplicates nor invents a path.
pub proof fn lemma_rank_sort_permutes(s: Seq<PathInfo>)
    ensures
        rank_sort(s).to_multiset() == s.to_multiset(),
    decreases s.len(),
{
    if s.len() == 0 {
        assert(s =~= Seq::<PathInfo>::empty());
        assert(rank_sort(s).to_multiset() =~= s.to_multiset());
    } else {
        let d = s.drop_first();
        lemma_rank_sort_permutes(d);
        lemma_insert_ranked_multiset(s[0], rank_sort(d));
        assert(s =~= d.insert(0, s[0]));
        vstd::seq_lib::to_multiset_insert(d, 0, s[0]);
    }
}

/// The ranked candidate list for a request: all paths, ranked, cut to
/// `MAX_CANDIDATES`.
pub open spec fn ranked_paths(
    dict: Seq<DictionaryEntry>,
    sc: Scorer,
    buf: Seq<char>,
    ctx: Seq<char>,
) -> Seq<PathInfo> {
    let sorted = rank_sort(all_paths(dict, sc, buf, ctx));
    if sorted.len() <= MAX_CANDIDATES {
        sorted
    } else {
        sorted.take(MAX_CANDIDATES as int)
    }
}

/// The ranked candidate list is ranked best-first, and every path in it is
/// bounded: it covers between 1 and `buf.len()` units at non-negative cost.
pub proof fn lemma_ranked_paths_props(
    dict: Seq<DictionaryEntry>,
    sc: Scorer,
    buf: Seq<char>,
    ctx: Seq<char>,
)
    ensures
        sorted_by_rank(ranked_paths(dict, sc, buf, ctx)),
        forall|k: int| 0 <= k < ranked_paths(dict, sc, buf, ctx).len() ==> path_bounded(
            #[trigger] ranked_paths(dict, sc, buf, ctx)[k],
            0,
            buf.len() as int,
        ),
        ranked_paths(dict, sc, buf, ctx).len() <= MAX_CANDIDATES,
{
    let paths = all_paths(dict, sc, buf, ctx);
    lemma_paths_from_bounded(dict, sc, buf, 0, crate::scorer::spec_context_class(ctx), 0);
    lemma_rank_sort_sorted(paths);
    lemma_rank_sort_all(paths, |q: PathInfo| path_bounded(q, 0, buf.len() as int));
    let sorted = rank_sort(paths);
    if sorted.len() > MAX_CANDIDATES {
        assert(forall|k: int| 0 <= k < ranked_paths(dict, sc, buf, ctx).len() ==> ranked_paths(
            dict,
            sc,
            buf,
            ctx,
        )[k] == sorted[k]);
    }
}

/// A computed lattice path: the concatenated surface text, the end position
/// of its last node, and its total cost.
pub(crate) struct RawPath {
    pub surface: String,
    pub end: usize,
    pub cost: u64,
}

/// The mathematical description of a computed path.
pub(crate) open spec fn raw_view(p: RawPath) -> PathInfo {
    PathInfo { surface: p.surface@, end: p.end as int, cost: p.cost as int }
}

/// The mathematical description of a computed path list.
pub(crate) open spec fn raw_views(s: Seq<RawPath>) -> Seq<PathInfo> {
    s.map_values(|p: RawPath| raw_view(p))
}

/// Runtime check matching `entry_matches_at`.
fn match_at(e: &DictionaryEntry, buf: &ComposingText, start: usize) -> (r: bool)
    requires
        start <= buf.units_view().len(),
    ensures
        r == entry_matches_at(*e, buf.units_view(), start as int),
{
    let klen: usize = e.key.as_str().unicode_len();
    if klen == 0 {
        return false;
    }
    let blen: usize = buf.len();
    if klen > blen - start {
        return false;
    }
    let mut j: usize = 0;
    while j < klen
        invariant
            j <= klen,
            klen == e.key@.len(),
            start + klen <= buf.units_view().len(),
            start + klen <= usize::MAX,
            forall|t: int| 0 <= t < j ==> e.key@[t] == buf.units_view()[start + t],
        decreases klen - j,
    {
        if e.key.as_str().get_char(j) != buf.unit_at(start + j) {
            proof {
                let sub = buf.units_view().subrange(start as int, start + klen as int);
                assert(sub[j as int] == buf.units_view()[start + j]);
                assert(sub != e.key@);
            }
            return false;
        }
        j = j + 1;
    }
    proof {
        assert(buf.units_view().subrange(start as int, start + klen as int) =~= e.key@);
    }
    true
}

/// Prefixes entry `e`, with edge cost `c0`, onto every path of `sub`.
fn extend_all(e: &DictionaryEntry, c0: u64, sub: &Vec<RawPath>) -> (r: Vec<RawPath>)
    requires
        forall|k: int| 0 <= k < sub@.len() ==> c0 + #[trigger] sub@[k].cost <= u64::MAX,
    ensures
        r@.len() == sub@.len(),
        forall|k: int| 0 <= k < r@.len() ==> raw_view(#[trigger] r@[k]) == extend_path(
            *e,
            c0 as int,
            raw_view(sub@[k]),
        ),
{
    let m: usize = sub.len();
    let mut r: Vec<RawPath> = Vec::new();
    let mut j: usize = 0;
    while j < m
        invariant
            j <= m,
            m == sub@.len(),
            r@.len() == j,
            forall|k: int| 0 <= k < sub@.len() ==> c0 + #[trigger] sub@[k].cost <= u64::MAX,
            forall|k: int| 0 <= k < j ==> raw_view(#[trigger] r@[k]) == extend_path(
                *e,
                c0 as int,
                raw_view(sub@[k]),
            ),
        decreases m - j,
    {
        let mut srf = e.surface.clone();
        srf.append(sub[j].surface.as_str());
        let cj: u64 = c0 + sub[j].cost;
        r.push(RawPath { surface: srf, end: sub[j].end, cost: cj });
        j = j + 1;
    }
    r
}

/// Enumerates, as computed paths, every lattice path beginning at `start`
/// with preceding word class `prev`: exactly `paths_from` over the loaded
/// dictionary.
#[verifier::rlimit(60)]
pub(crate) fn collect_paths(
    dict: &Dictionary,
    sc: &Scorer,
    buf: &ComposingText,
    start: usize,
    prev: u32,
) -> (r: Vec<RawPath>)
    requires
        start <= buf.units_view().len(),
        buf.units_view().len() <= MAX_COMPOSING_LEN,
    ensures
        raw_views(r@) == paths_from(
            dict.entries_view(),
            *sc,
            buf.units_view(),
            start as int,
            prev,
            0,
        ),
    decreases buf.units_view().len() - start,
{
    let ghost dseq = dict.entries_view();
    let ghost bseq = buf.units_view();
    let ghost target = paths_from(dseq, *sc, bseq, start as int, prev, 0);
    let mut out: Vec<RawPath> = Vec::new();
    proof {
        assert(raw_views(out@) =~= Seq::<PathInfo>::empty());
    }
    let n: usize = dict.entry_count();
    let mut i: usize = 0;
    while i < n
        invariant
            i <= n,
            n == dseq.len(),
            dseq == dict.entries_view(),
            bseq == buf.units_view(),
            start <= bseq.len(),
            bseq.len() <= MAX_COMPOSING_LEN,
            target == paths_from(dseq, *sc, bseq, start as int, prev, 0),
            target == raw_views(out@) + paths_from(dseq, *sc, bseq, start as int, prev, i as int),
        decreases n - i,
    {
        let ghost prefix = raw_views(out@);
        let e = dict.entry_at(i);
        let ghost eg = dseq[i as int];
        if match_at(e, buf, start) {
            let klen: usize = e.key.as_str().unicode_len();
            let end0: usize = start + klen;
            let c0: u64 = sc.step_cost_exec(prev, e);
            let ghost c0g = sc.step_cost(prev, eg);
            let ghost single = PathInfo { surface: eg.surface@, end: end0 as int, cost: c0g };
            out.push(RawPath { surface: e.surface.clone(), end: end0, cost: c0 });
            proof {
                assert(raw_views(out@) =~= prefix.push(single));
            }
            let sub = collect_paths(dict, sc, buf, end0, e.word_class);
            let ghost tail = paths_from(dseq, *sc, bseq, end0 as int, eg.word_class, 0);
            proof {
                lemma_paths_from_bounded(dseq, *sc, bseq, end0 as int, eg.word_class, 0);
                sc.lemma_step_cost_bound(prev, eg);
                let b = STEP_COST_BOUND as int;
                assert forall|k: int| 0 <= k < sub@.len() implies c0 + #[trigger] sub@[k].cost
                    <= u64::MAX by {
                    assert(raw_views(sub@)[k] == raw_view(sub@[k]));
                    assert(path_bounded(tail[k], end0 as int, bseq.len() as int));
                    assert((tail[k].end - end0) * b <= (bseq.len() - end0) * b) by {
                        lemma_mul_inequality(tail[k].end - end0, bseq.len() - end0, b);
                    }
                    assert((bseq.len() - end0) * b <= 0x4000_0000 * b) by {
                        lemma_mul_inequality(bseq.len() - end0, 0x4000_0000, b);
                    }
                }
            }
            let mut ext = extend_all(e, c0, &sub);
            out.append(&mut ext);
            proof {
                let exts = tail.map(|k: int, p: PathInfo| extend_path(eg, c0g, p));
                assert(raw_views(sub@) == tail);
                assert forall|k: int| 0 <= k < exts.len() implies raw_view(
                    #[trigger] out@[prefix.len() + 1 + k],
                ) == exts[k] by {
                    assert(raw_view(out@[prefix.len() + 1 + k]) == extend_path(
                        eg,
                        c0g,
                        raw_view(sub@[k]),
                    ));
                    assert(tail[k] == raw_view(sub@[k]));
                }
                assert(raw_views(out@) =~= prefix + seq![single] + exts);
                assert(paths_from(dseq, *sc, bseq, start as int, prev, i as int) == seq![single]
                    + exts + paths_from(dseq, *sc, bseq, start as int, prev, i + 1));
                assert(prefix + (seq![single] + exts + paths_from(
                    dseq,
                    *sc,
                    bseq,
                    start as int,
                    prev,
                    i + 1,
                )) =~= (prefix + seq![single] + exts) + paths_from(
                    dseq,
                    *sc,
                    bseq,
                    start as int,
                    prev,
                    i + 1,
                ));
            }
        } else {
            proof {
                assert(paths_from(dseq, *sc, bseq, start as int, prev, i as int) == paths_from(
                    dseq,
                    *sc,
                    bseq,
                    start as int,
                    prev,
                    i + 1,
                ));
            }
        }
        i = i + 1;
    }
    proof {
        assert(paths_from(dseq, *sc, bseq, start as int, prev, n as int) == Seq::<
            PathInfo,
        >::empty());
        assert(raw_views(out@) + Seq::<PathInfo>::empty() =~= raw_views(out@));
    }
    out
}

/// Runtime comparison matching `lex_le`.
fn lex_le_exec(a: &str, b: &str) -> (r: bool)
    ensures
        r == lex_le(a@, b@),
{
    let alen: usize = a.unicode_len();
    let blen: usize = b.unicode_len();
    proof {
        assert(a@.skip(0) =~= a@);
        assert(b@.skip(0) =~= b@);
    }
    let mut i: usize = 0;
    while i < alen && i < blen
        invariant
            i <= alen,
            i <= blen,
            alen == a@.len(),
            blen == b@.len(),
            lex_le(a@, b@) == lex_le(a@.skip(i as int), b@.skip(i as int)),
        decreases alen - i,
    {
        let ca = a.get_char(i);
        let cb = b.get_char(i);
        proof {
            assert(a@.skip(i as int)[0] == a@[i as int]);
            assert(b@.skip(i as int)[0] == b@[i as int]);
            assert(a@.skip(i as int).drop_first() =~= a@.skip(i + 1));
            assert(b@.skip(i as int).drop_first() =~= b@.skip(i + 1));
        }
        if (ca as u32) < (cb as u32) {
            return true;
        }
        if (ca as u32) > (cb as u32) {
            return false;
        }
        i = i + 1;
    }
    proof {
        if i == alen {
            assert(a@.skip(i as int) =~= Seq::<char>::empty());
        } else {
            assert(b@.skip(i as int) =~= Seq::<char>::empty());
            assert(a@.skip(i as int).len() > 0);
        }
    }
    alen <= blen
}

/// Runtime comparison matching `path_le`.
fn path_le_exec(a: &RawPath, b: &RawPath) -> (r: bool)
    ensures
        r == path_le(raw_view(*a), raw_view(*b)),
{
    if a.cost < b.cost {
        true
    } else if a.cost > b.cost {
        false
    } else if a.end > b.end {
        true
    } else if a.end < b.end {
        false
    } else {
        lex_le_exec(a.surface.as_str(), b.surface.as_str())
    }
}

/// `insert_ranked` places `p` at the first position whose element does not
/// rank strictly before it.
proof fn lemma_insert_ranked_at(p: PathInfo, s: Seq<PathInfo>, idx: int)
    requires
        0 <= idx <= s.len(),
        forall|k: int| 0 <= k < idx ==> !path_le(p, #[trigger] s[k]),
        idx < s.len() ==> path_le(p, s[idx]),
    ensures
        insert_ranked(p, s) == s.take(idx) + seq![p] + s.skip(idx),
    decreases s.len(),
{
    if idx == 0 {
        assert(insert_ranked(p, s) =~= s.take(0) + seq![p] + s.skip(0));
    } else {
        assert(!path_le(p, s[0]));
        let d = s.drop_first();
        assert(forall|k: int| 0 <= k < idx - 1 ==> !path_le(p, #[trigger] d[k]));
        assert(idx - 1 < d.len() ==> path_le(p, d[idx - 1]));
        lemma_insert_ranked_at(p, d, idx - 1);
        assert(seq![s[0]] + (d.take(idx - 1) + seq![p] + d.skip(idx - 1)) =~= s.take(idx) + seq![p]
            + s.skip(idx));
    }
}

/// Inserts `x` at its rank in an already ranked list.
fn rank_insert_exec(v: &mut Vec<RawPath>, x: RawPath)
    ensures
        raw_views(final(v)@) == insert_ranked(raw_view(x), raw_views(old(v)@)),
{
    let n: usize = v.len();
    let mut idx: usize = 0;
    let mut done = false;
    while !done && idx < n
        invariant
            idx <= n,
            n == v@.len(),
            *v == *old(v),
            forall|k: int| 0 <= k < idx ==> !path_le(raw_view(x), raw_views(v@)[k]),
            done ==> idx < n && path_le(raw_view(x), raw_views(v@)[idx as int]),
        decreases n - idx, (if done { 0int } else { 1int }),
    {
        if path_le_exec(&x, &v[idx]) {
            done = true;
            proof {
                assert(raw_views(v@)[idx as int] == raw_view(v@[idx as int]));
            }
        } else {
            proof {
                assert(raw_views(v@)[idx as int] == raw_view(v@[idx as int]));
            }
            idx = idx + 1;
        }
    }
    proof {
        lemma_insert_ranked_at(raw_view(x), raw_views(v@), idx as int);
    }
    v.insert(idx, x);
    proof {
        assert(raw_views(v@) =~= raw_views(old(v)@).take(idx as int) + seq![raw_view(x)]
            + raw_views(old(v)@).skip(idx as int));
    }
}

/// Sorts computed paths into the canonical ranking: exactly `rank_sort`.
pub(crate) fn rank_sort_exec(v: Vec<RawPath>) -> (r: Vec<RawPath>)
    ensures
        raw_views(r@) == rank_sort(raw_views(v@)),
{
    let ghost pviews = raw_views(v@);
    let mut v = v;
    let mut out: Vec<RawPath> = Vec::new();
    proof {
        assert(v@.take(v@.len() as int) =~= v@);
        assert(pviews.skip(v@.len() as int) =~= Seq::<PathInfo>::empty());
        assert(raw_views(out@) =~= Seq::<PathInfo>::empty());
    }
    while v.len() > 0
        invariant
            v@.len() <= pviews.len(),
            forall|k: int| 0 <= k < v@.len() ==> raw_view(#[trigger] v@[k]) == pviews[k],
            raw_views(out@) == rank_sort(pviews.skip(v@.len() as int)),
        decreases v@.len(),
    {
        let ghost l = v@.len() as int;
        let x = v.pop().unwrap();
        proof {
            assert(raw_view(x) == pviews[l - 1]);
            let s = pviews.skip(l - 1);
            assert(s[0] == pviews[l - 1]);
            assert(s.drop_first() =~= pviews.skip(l));
            assert(rank_sort(s) == insert_ranked(pviews[l - 1], rank_sort(pviews.skip(l))));
        }
        rank_insert_exec(&mut out, x);
    }
    proof {
        assert(pviews.skip(0) =~= pviews);
    }
    out
}

/// Runs the whole search for one request: every path of the current buffer,
/// ranked best-first, cut to `MAX_CANDIDATES`.
pub(crate) fn search_ranked(
    dict: &Dictionary,
    sc: &Scorer,
    buf: &ComposingText,
    ctx: &str,
) -> (r: Vec<RawPath>)
    requires
        buf.units_view().len() <= MAX_COMPOSING_LEN,
    ensures
        raw_views(r@) == ranked_paths(dict.entries_view(), *sc, buf.units_view(), ctx@),
{
    let pc: u32 = crate::scorer::context_class(ctx);
    let raw = collect_paths(dict, sc, buf, 0, pc);
    let mut sorted = rank_sort_exec(raw);
    if sorted.len() > MAX_CANDIDATES {
        let ghost before = raw_views(sorted@);
        sorted.truncate(MAX_CANDIDATES);
        proof {
            assert(raw_views(sorted@) =~= before.take(MAX_CANDIDATES as int));
        }
    }
    sorted
}

/// Every ranked candidate is realized by an actual segmentation of the
/// buffer: the ranking invents nothing the lattice does not contain.
pub proof fn lemma_ranked_paths_sound(
    dict: Seq<DictionaryEntry>,
    sc: Scorer,
    buf: Seq<char>,
    ctx: Seq<char>,
)
    ensures
        forall|k: int| 0 <= k < ranked_paths(dict, sc, buf, ctx).len() ==> path_realized(
            dict,
            sc,
            buf,
            0,
            crate::scorer::spec_context_class(ctx),
            #[trigger] ranked_paths(dict, sc, buf, ctx)[k],
        ),
{
    let prev = crate::scorer::spec_context_class(ctx);
    let paths = all_paths(dict, sc, buf, ctx);
    lemma_paths_from_sound(dict, sc, buf, 0, prev, 0);
    lemma_rank_sort_all(paths, |q: PathInfo| path_realized(dict, sc, buf, 0, prev, q));
    let sorted = rank_sort(paths);
    if sorted.len() > MAX_CANDIDATES {
        assert(forall|k: int| 0 <= k < ranked_paths(dict, sc, buf, ctx).len() ==> ranked_paths(
            dict,
            sc,
            buf,
            ctx,
        )[k] == sorted[k]);
    }
}

/// An exhausted buffer span admits no path at all.
pub proof fn lemma_paths_from_exhausted(
    dict: Seq<DictionaryEntry>,
    sc: Scorer,
    buf: Seq<char>,
    prev: u32,
    i: int,
)
    requires
        0 <= i <= dict.len(),
    ensures
        paths_from(dict, sc, buf, buf.len() as int, prev, i) == Seq::<PathInfo>::empty(),
    decreases dict.len() - i,
{
    if i < dict.len() {
        lemma_paths_from_exhausted(dict, sc, buf, prev, i + 1);
        assert(!entry_matches_at(dict[i], buf, buf.len() as int));
    }
}

} // verus!
