//! Ordering of scored candidates: score descending, then name ascending,
//! then position ascending.
use vstd::prelude::*;
use crate::text::chars_of;

verus! {

/// Lexicographic order on characters from position `k` on (by code point,
/// which is also the byte order of UTF-8 strings).
pub open spec fn text_less_from(a: Seq<char>, b: Seq<char>, k: nat) -> bool
    decreases a.len() - k,
{
    if k >= a.len() {
        k < b.len()
    } else if k >= b.len() {
        false
    } else if a[k as int] != b[k as int] {
        a[k as int] < b[k as int]
    } else {
        text_less_from(a, b, k + 1)
    }
}

/// Strict lexicographic order on character sequences.
pub open spec fn text_less(a: Seq<char>, b: Seq<char>) -> bool {
    text_less_from(a, b, 0)
}

proof fn lemma_text_total_from(a: Seq<char>, b: Seq<char>, k: nat)
    requires
        k <= a.len(),
        k <= b.len(),
        forall|i: int| 0 <= i < k ==> a[i] == b[i],
        !text_less_from(a, b, k),
        !text_less_from(b, a, k),
    ensures
        a == b,
    decreases a.len() - k,
{
    if k == a.len() || k == b.len() {
        assert(a =~= b);
    } else {
        lemma_text_total_from(a, b, k + 1);
    }
}

/// Two different texts are ordered one way or the other.
pub proof fn lemma_text_total(a: Seq<char>, b: Seq<char>)
    requires
        a != b,
    ensures
        text_less(a, b) || text_less(b, a),
{
    if !text_less(a, b) && !text_less(b, a) {
        lemma_text_total_from(a, b, 0);
    }
}

/// Whether `a` comes strictly before `b` in lexicographic order.
pub fn less_text(a: &str, b: &str) -> (r: bool)
    ensures
        r == text_less(a@, b@),
{
    let x = chars_of(a);
    let y = chars_of(b);
    let mut k: usize = 0;
    while k < x.len() && k < y.len()
        invariant
            x@ == a@,
            y@ == b@,
            k <= x@.len(),
            k <= y@.len(),
            text_less(a@, b@) == text_less_from(a@, b@, k as nat),
        decreases x@.len() - k,
    {
        if x[k] != y[k] {
            return x[k] < y[k];
        }
        k = k + 1;
    }
    k < y.len()
}

/// Whether candidate `i` (with `score_i` and `name_i`) ranks before candidate `j`.
pub open spec fn ranks_before(
    score_i: int,
    name_i: Seq<char>,
    i: int,
    score_j: int,
    name_j: Seq<char>,
    j: int,
) -> bool {
    score_i > score_j || (score_i == score_j && (text_less(name_i, name_j) || (name_i == name_j
        && i < j)))
}

/// Position `i` ranks before position `j` among `names` with `scores`.
pub open spec fn cand_before(names: Seq<String>, scores: Seq<Option<i32>>, i: int, j: int) -> bool {
    ranks_before(scores[i]->0 as int, names[i]@, i, scores[j]->0 as int, names[j]@, j)
}

/// `order` lists every position that has a score exactly once, each in
/// range, and each ranks before the next.
pub open spec fn is_ranking(names: Seq<String>, scores: Seq<Option<i32>>, order: Seq<usize>) -> bool {
    &&& order.no_duplicates()
    &&& forall|k: int| 0 <= k < order.len() ==> (order[k] as int) < scores.len() && scores[order[k] as int] is Some
    &&& forall|p: usize| (p as int) < scores.len() && scores[p as int] is Some ==> order.contains(p)
    &&& forall|k: int| 0 <= k < order.len() - 1 ==> #[trigger] cand_before(names, scores, order[k] as int, order[k + 1] as int)
}

/// `r` is the first `limit` positions of a ranking of the scored candidates.
pub open spec fn is_top_ranked(names: Seq<String>, scores: Seq<Option<i32>>, limit: nat, r: Seq<usize>) -> bool {
    exists|order: Seq<usize>| #[trigger] is_ranking(names, scores, order) && r == order.take(
        if limit <= order.len() { limit as int } else { order.len() as int },
    )
}

/// The scored positions among `names`/`scores`, ranked by score descending,
/// then name ascending, then position, and cut to `limit`.
pub fn rank_candidates(names: &Vec<String>, scores: &Vec<Option<i32>>, limit: usize) -> (r: Vec<usize>)
    requires
        names@.len() == scores@.len(),
    ensures
        is_top_ranked(names@, scores@, limit as nat, r@),
{
    let mut order: Vec<usize> = Vec::new();
    let mut i: usize = 0;
    while i < scores.len()
        invariant
            names@.len() == scores@.len(),
            i <= scores@.len(),
            order@.no_duplicates(),
            forall|k: int| 0 <= k < order@.len() ==> (order@[k] as int) < i && scores@[order@[k] as int] is Some,
            forall|p: usize| (p as int) < i && scores@[p as int] is Some ==> order@.contains(p),
            forall|k: int| 0 <= k < order@.len() - 1 ==> #[trigger] cand_before(names@, scores@, order@[k] as int, order@[k + 1] as int),
        decreases scores@.len() - i,
    {
        if let Some(s) = scores[i] {
            let mut pos: usize = 0;
            while pos < order.len()
                invariant
                    names@.len() == scores@.len(),
                    i < scores@.len(),
                    scores@[i as int] == Some(s),
                    pos <= order@.len(),
                    forall|k: int| 0 <= k < order@.len() ==> (order@[k] as int) < i && scores@[order@[k] as int] is Some,
                    pos > 0 ==> cand_before(names@, scores@, order@[pos - 1] as int, i as int),
                ensures
                    pos <= order@.len(),
                    pos > 0 ==> cand_before(names@, scores@, order@[pos - 1] as int, i as int),
                    pos < order@.len() ==> !cand_before(names@, scores@, order@[pos as int] as int, i as int),
                decreases order@.len() - pos,
            {
                let o = order[pos];
                let so = match scores[o] {
                    Some(v) => v,
                    None => 0,
                };
                let earlier = so > s || (so == s && (less_text(&names[o], &names[i]) || (!less_text(&names[i], &names[o]))));
                if !earlier {
                    break;
                }
                proof {
                    if so == s && !text_less(names@[o as int]@, names@[i as int]@) {
                        if names@[o as int]@ != names@[i as int]@ {
                            lemma_text_total(names@[o as int]@, names@[i as int]@);
                        }
                    }
                }
                pos = pos + 1;
            }
            proof {
                if pos < order@.len() {
                    let o = order@[pos as int];
                    if names@[o as int]@ != names@[i as int]@ {
                        lemma_text_total(names@[o as int]@, names@[i as int]@);
                    }
                    assert(cand_before(names@, scores@, i as int, o as int));
                }
            }
            let ghost old_order = order@;
            order.insert(pos, i);
            proof {
                assert(order@ == old_order.insert(pos as int, i));
                assert forall|k: int| 0 <= k < order@.len() - 1 implies #[trigger] cand_before(
                    names@,
                    scores@,
                    order@[k] as int,
                    order@[k + 1] as int,
                ) by {
                    if k < pos - 1 {
                        assert(order@[k] == old_order[k] && order@[k + 1] == old_order[k + 1]);
                        assert(cand_before(names@, scores@, old_order[k] as int, old_order[k + 1] as int));
                    } else if k == pos - 1 {
                        assert(order@[k] == old_order[k] && order@[k + 1] == i);
                    } else if k == pos {
                        assert(order@[k] == i && order@[k + 1] == old_order[k]);
                    } else {
                        assert(order@[k] == old_order[k - 1] && order@[k + 1] == old_order[k]);
                        let j = k - 1;
                        assert(0 <= j < old_order.len() - 1);
                        assert(cand_before(names@, scores@, old_order[j] as int, old_order[j + 1] as int));
                    }
                }
                assert forall|p: usize| (p as int) < i + 1 && scores@[p as int] is Some implies order@.contains(p) by {
                    if p == i {
                        assert(order@[pos as int] == i);
                    } else {
                        assert(old_order.contains(p));
                        let k = choose|k: int| 0 <= k < old_order.len() && old_order[k] == p;
                        if k < pos {
                            assert(order@[k] == p);
                        } else {
                            assert(order@[k + 1] == p);
                        }
                    }
                }
                assert forall|a: int, b: int| 0 <= a < order@.len() && 0 <= b < order@.len() && a != b implies order@[a] != order@[b] by {
                    let oa = if a < pos { a } else if a == pos { -1 } else { a - 1 };
                    let ob = if b < pos { b } else if b == pos { -1 } else { b - 1 };
                    if oa >= 0 && ob >= 0 {
                        assert(order@[a] == old_order[oa] && order@[b] == old_order[ob]);
                    } else if oa >= 0 {
                        assert(order@[a] == old_order[oa]);
                    } else if ob >= 0 {
                        assert(order@[b] == old_order[ob]);
                    }
                }
            }
        }
        i = i + 1;
    }
    let ghost full = order@;
    let mut r = order;
    if limit < r.len() {
        r.truncate(limit);
    }
    assert(is_ranking(names@, scores@, full));
    assert(r@ == full.take(if (limit as nat) <= full.len() { limit as int } else { full.len() as int }));
    r
}

} // verus!
