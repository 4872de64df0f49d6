//! Deterministic ordering of search candidates: best score first, candidate
//! id as the tie-break, and at most `SEARCH_RESULTS_MAX` results.
use vstd::prelude::*;

use crate::intelligence::SEARCH_RESULTS_MAX;

verus! {

/// A candidate to be ordered: its id and an integer score key whose order is
/// the order of the candidate's similarity to the query (a larger key is a
/// more similar candidate, equal keys are equally similar).
#[derive(Clone, Copy)]
pub struct ScoredCandidate<'a> {
    pub candidate_id: &'a str,
    pub score_key: u64,
}

/// Lexicographic order on byte strings, the order of `String` and `str`.
pub open spec fn bytes_lt(a: Seq<u8>, b: Seq<u8>) -> bool
    decreases a.len(),
{
    if a.len() == 0 {
        b.len() > 0
    } else if b.len() == 0 {
        false
    } else if a[0] != b[0] {
        a[0] < b[0]
    } else {
        bytes_lt(a.drop_first(), b.drop_first())
    }
}

pub open spec fn id_bytes(c: ScoredCandidate) -> Seq<u8> {
    vstd::utf8::encode_utf8(c.candidate_id@)
}

/// Candidate `i` of `cs` comes before candidate `j`: a higher score first,
/// then the smaller id, then (for identical entries) the earlier position,
/// as a stable sort leaves them.
pub open spec fn ranks_before(cs: Seq<ScoredCandidate>, i: int, j: int) -> bool {
    let a = cs[i];
    let b = cs[j];
    ||| a.score_key > b.score_key
    ||| a.score_key == b.score_key && bytes_lt(id_bytes(a), id_bytes(b))
    ||| a.score_key == b.score_key && id_bytes(a) == id_bytes(b) && i < j
}

/// `order` lists candidate positions, each once, best first.
pub open spec fn is_ranked(cs: Seq<ScoredCandidate>, order: Seq<usize>) -> bool {
    &&& forall|k: int| 0 <= k < order.len() ==> #[trigger] order[k] < cs.len()
    &&& forall|k: int, l: int|
        0 <= k < l < order.len() ==> ranks_before(cs, #[trigger] order[k] as int, #[trigger] order[l] as int)
}

/// Every candidate left out of `order` comes after every candidate in it.
pub open spec fn leaves_out_only_worse(cs: Seq<ScoredCandidate>, order: Seq<usize>) -> bool {
    forall|x: int, k: int|
        0 <= x < cs.len() && !order.contains(x as usize) && 0 <= k < order.len()
            ==> #[trigger] ranks_before(cs, order[k] as int, x)
}

pub open spec fn result_count(candidates: int, limit: int) -> int {
    let cap = if limit < SEARCH_RESULTS_MAX { limit } else { SEARCH_RESULTS_MAX as int };
    if candidates < cap { candidates } else { cap }
}

/// The number of results: all candidates, but never more than `limit` and
/// never more than 100.
pub proof fn lemma_result_count_bounds(candidates: int, limit: int)
    requires
        candidates >= 0,
        limit >= 0,
    ensures
        result_count(candidates, limit) <= candidates,
        result_count(candidates, limit) <= limit,
        result_count(candidates, limit) <= 100,
        result_count(candidates, limit) == candidates || result_count(candidates, limit) == limit
            || result_count(candidates, limit) == 100,
{
}

// ---------------------------------------------------------------------------
// Byte-string order
// ---------------------------------------------------------------------------

proof fn lemma_bytes_lt_irreflexive(a: Seq<u8>)
    ensures
        !bytes_lt(a, a),
    decreases a.len(),
{
    if a.len() > 0 {
        lemma_bytes_lt_irreflexive(a.drop_first());
    }
}

proof fn lemma_bytes_lt_total(a: Seq<u8>, b: Seq<u8>)
    requires
        a != b,
    ensures
        bytes_lt(a, b) || bytes_lt(b, a),
    decreases a.len(),
{
    if a.len() > 0 && b.len() > 0 && a[0] == b[0] {
        if a.drop_first() == b.drop_first() {
            assert(a =~= seq![a[0]] + a.drop_first());
            assert(b =~= seq![b[0]] + b.drop_first());
        }
        lemma_bytes_lt_total(a.drop_first(), b.drop_first());
    } else if a.len() == 0 && b.len() == 0 {
        assert(a =~= b);
    }
}

proof fn lemma_bytes_lt_asymmetric(a: Seq<u8>, b: Seq<u8>)
    requires
        bytes_lt(a, b),
    ensures
        !bytes_lt(b, a),
    decreases a.len(),
{
    if a.len() > 0 && b.len() > 0 && a[0] == b[0] {
        lemma_bytes_lt_asymmetric(a.drop_first(), b.drop_first());
    }
}

proof fn lemma_bytes_lt_transitive(a: Seq<u8>, b: Seq<u8>, c: Seq<u8>)
    requires
        bytes_lt(a, b),
        bytes_lt(b, c),
    ensures
        bytes_lt(a, c),
    decreases a.len(),
{
    if a.len() > 0 && b.len() > 0 && c.len() > 0 && a[0] == b[0] && b[0] == c[0] {
        lemma_bytes_lt_transitive(a.drop_first(), b.drop_first(), c.drop_first());
    }
}

/// Byte order, stated by the first difference: `a` comes before `b` exactly
/// when they agree up to some position `k` and then either `a` ends there while
/// `b` goes on, or both go on and `a`'s byte at `k` is the smaller.
pub proof fn lemma_bytes_lt_first_difference(a: Seq<u8>, b: Seq<u8>)
    ensures
        bytes_lt(a, b) <==> exists|k: int|
            0 <= k <= a.len() && k <= b.len() && #[trigger] a.take(k) == b.take(k) && ((k == a.len()
                && k < b.len()) || (k < a.len() && k < b.len() && a[k] < b[k])),
    decreases a.len(),
{
    if a.len() == 0 {
        if b.len() > 0 {
            assert(a.take(0) == b.take(0));
        }
    } else if b.len() == 0 {
    } else if a[0] != b[0] {
        if a[0] < b[0] {
            assert(a.take(0) == b.take(0));
        }
        if exists|k: int|
            0 <= k <= a.len() && k <= b.len() && #[trigger] a.take(k) == b.take(k) && ((k == a.len()
                && k < b.len()) || (k < a.len() && k < b.len() && a[k] < b[k])) {
            let k = choose|k: int|
                0 <= k <= a.len() && k <= b.len() && #[trigger] a.take(k) == b.take(k) && ((k
                    == a.len() && k < b.len()) || (k < a.len() && k < b.len() && a[k] < b[k]));
            if k > 0 {
                assert(a.take(k)[0] == b.take(k)[0]);
            }
        }
    } else {
        let (x, y) = (a.drop_first(), b.drop_first());
        lemma_bytes_lt_first_difference(x, y);
        if bytes_lt(a, b) {
            let k = choose|k: int|
                0 <= k <= x.len() && k <= y.len() && #[trigger] x.take(k) == y.take(k) && ((k
                    == x.len() && k < y.len()) || (k < x.len() && k < y.len() && x[k] < y[k]));
            assert(a.take(k + 1) =~= seq![a[0]] + x.take(k));
            assert(b.take(k + 1) =~= seq![b[0]] + y.take(k));
            assert(a.take(k + 1) == b.take(k + 1));
        }
        if exists|k: int|
            0 <= k <= a.len() && k <= b.len() && #[trigger] a.take(k) == b.take(k) && ((k == a.len()
                && k < b.len()) || (k < a.len() && k < b.len() && a[k] < b[k])) {
            let k = choose|k: int|
                0 <= k <= a.len() && k <= b.len() && #[trigger] a.take(k) == b.take(k) && ((k
                    == a.len() && k < b.len()) || (k < a.len() && k < b.len() && a[k] < b[k]));
            assert(k >= 1);
            assert(x.take(k - 1) =~= a.take(k).drop_first());
            assert(y.take(k - 1) =~= b.take(k).drop_first());
            assert(x.take(k - 1) == y.take(k - 1));
        }
    }
}

/// The candidate order, stated over scores and ids: candidate `i` comes
/// before candidate `j` exactly when its score key is larger, or the keys are
/// equal and its id is smaller byte by byte, or key and id are both equal and
/// it comes earlier in the input.
pub proof fn lemma_ranks_before_meaning(cs: Seq<ScoredCandidate>, i: int, j: int)
    ensures
        ranks_before(cs, i, j) <==> {
            let (a, b) = (cs[i], cs[j]);
            let (x, y) = (vstd::utf8::encode_utf8(a.candidate_id@), vstd::utf8::encode_utf8(
                b.candidate_id@,
            ));
            ||| a.score_key > b.score_key
            ||| a.score_key == b.score_key && exists|k: int|
                0 <= k <= x.len() && k <= y.len() && #[trigger] x.take(k) == y.take(k) && ((k
                    == x.len() && k < y.len()) || (k < x.len() && k < y.len() && x[k] < y[k]))
            ||| a.score_key == b.score_key && a.candidate_id@ == b.candidate_id@ && i < j
        },
{
    broadcast use vstd::utf8::encode_utf8_decode_utf8;

    let (x, y) = (id_bytes(cs[i]), id_bytes(cs[j]));
    lemma_bytes_lt_first_difference(x, y);
    assert(vstd::utf8::decode_utf8(x) == cs[i].candidate_id@);
    assert(vstd::utf8::decode_utf8(y) == cs[j].candidate_id@);
}

/// The candidate order is total on distinct positions.
pub proof fn lemma_ranks_before_total(cs: Seq<ScoredCandidate>, i: int, j: int)
    requires
        i != j,
    ensures
        ranks_before(cs, i, j) || ranks_before(cs, j, i),
{
    if id_bytes(cs[i]) != id_bytes(cs[j]) {
        lemma_bytes_lt_total(id_bytes(cs[i]), id_bytes(cs[j]));
    }
}

/// The candidate order is irreflexive and asymmetric.
pub proof fn lemma_ranks_before_asymmetric(cs: Seq<ScoredCandidate>, i: int, j: int)
    ensures
        ranks_before(cs, i, j) ==> !ranks_before(cs, j, i),
{
    lemma_bytes_lt_irreflexive(id_bytes(cs[i]));
    if bytes_lt(id_bytes(cs[i]), id_bytes(cs[j])) {
        lemma_bytes_lt_asymmetric(id_bytes(cs[i]), id_bytes(cs[j]));
    }
}

/// The candidate order is transitive.
pub proof fn lemma_ranks_before_transitive(cs: Seq<ScoredCandidate>, i: int, j: int, k: int)
    requires
        ranks_before(cs, i, j),
        ranks_before(cs, j, k),
    ensures
        ranks_before(cs, i, k),
{
    let (a, b, c) = (id_bytes(cs[i]), id_bytes(cs[j]), id_bytes(cs[k]));
    if bytes_lt(a, b) && bytes_lt(b, c) {
        lemma_bytes_lt_transitive(a, b, c);
    }
}

fn bytes_less(a: &[u8], b: &[u8]) -> (r: bool)
    ensures
        r == bytes_lt(a@, b@),
{
    let mut i: usize = 0;
    assert(a@.skip(0) == a@ && b@.skip(0) == b@);
    while i < a.len() && i < b.len()
        invariant
            i <= a@.len(),
            i <= b@.len(),
            bytes_lt(a@, b@) == bytes_lt(a@.skip(i as int), b@.skip(i as int)),
        decreases a@.len() - i,
    {
        if a[i] != b[i] {
            return a[i] < b[i];
        }
        proof {
            assert(a@.skip(i as int).drop_first() == a@.skip(i + 1));
            assert(b@.skip(i as int).drop_first() == b@.skip(i + 1));
        }
        i = i + 1;
    }
    a.len() < b.len()
}

fn ranks_before_exec(cs: &[ScoredCandidate<'_>], i: usize, j: usize) -> (r: bool)
    requires
        i < cs@.len(),
        j < cs@.len(),
    ensures
        r == ranks_before(cs@, i as int, j as int),
{
    let a = cs[i];
    let b = cs[j];
    if a.score_key != b.score_key {
        return a.score_key > b.score_key;
    }
    let x = a.candidate_id.as_bytes();
    let y = b.candidate_id.as_bytes();
    if bytes_less(x, y) {
        return true;
    }
    if bytes_less(y, x) {
        proof {
            lemma_bytes_lt_asymmetric(y@, x@);
            lemma_bytes_lt_irreflexive(x@);
        }
        return false;
    }
    proof {
        if x@ != y@ {
            lemma_bytes_lt_total(x@, y@);
        }
    }
    i < j
}

/// The positions of the best `min(candidates, limit, SEARCH_RESULTS_MAX)`
/// candidates, best first: a higher score key first, equal keys by candidate
/// id, and identical entries in their given order.
pub fn rank_order(candidates: &[ScoredCandidate<'_>], limit: usize) -> (order: Vec<usize>)
    ensures
        order@.len() == result_count(candidates@.len() as int, limit as int),
        is_ranked(candidates@, order@),
        leaves_out_only_worse(candidates@, order@),
        order@.no_duplicates(),
{
    let n = candidates.len();
    let ghost cs = candidates@;
    let mut sorted: Vec<usize> = Vec::new();
    let mut x: usize = 0;
    while x < n
        invariant
            n == cs.len(),
            cs == candidates@,
            x <= n,
            sorted@.len() == x,
            is_ranked(cs, sorted@),
            forall|k: int| 0 <= k < sorted@.len() ==> #[trigger] sorted@[k] < x,
            forall|y: int| 0 <= y < x ==> #[trigger] sorted@.contains(y as usize),
        decreases n - x,
    {
        let mut pos: usize = 0;
        while pos < sorted.len() && !ranks_before_exec(candidates, x, sorted[pos])
            invariant
                n == cs.len(),
                cs == candidates@,
                x < n,
                pos <= sorted@.len(),
                is_ranked(cs, sorted@),
                forall|k: int| 0 <= k < sorted@.len() ==> #[trigger] sorted@[k] < x,
                forall|k: int| 0 <= k < pos ==> ranks_before(cs, #[trigger] sorted@[k] as int, x as int),
            decreases sorted@.len() - pos,
        {
            proof {
                lemma_ranks_before_total(cs, x as int, sorted@[pos as int] as int);
            }
            pos = pos + 1;
        }
        let ghost old_sorted = sorted@;
        proof {
            assert forall|k: int| pos <= k < old_sorted.len() implies ranks_before(
                cs,
                x as int,
                #[trigger] old_sorted[k] as int,
            ) by {
                if k > pos {
                    lemma_ranks_before_transitive(
                        cs,
                        x as int,
                        old_sorted[pos as int] as int,
                        old_sorted[k] as int,
                    );
                }
            }
        }
        sorted.insert(pos, x);
        proof {
            let s = sorted@;
            assert forall|k: int| 0 <= k < s.len() implies #[trigger] s[k] < x + 1 by {
                if k < pos {
                    assert(s[k] == old_sorted[k]);
                } else if k > pos {
                    assert(s[k] == old_sorted[k - 1]);
                }
            }
            assert forall|k: int, l: int| 0 <= k < l < s.len() implies ranks_before(
                cs,
                #[trigger] s[k] as int,
                #[trigger] s[l] as int,
            ) by {
                if l < pos {
                    assert(s[k] == old_sorted[k] && s[l] == old_sorted[l]);
                } else if l == pos {
                    assert(s[k] == old_sorted[k]);
                } else if k < pos {
                    assert(s[k] == old_sorted[k] && s[l] == old_sorted[l - 1]);
                    lemma_ranks_before_transitive(cs, s[k] as int, x as int, s[l] as int);
                } else if k == pos {
                    assert(s[l] == old_sorted[l - 1]);
                } else {
                    assert(s[k] == old_sorted[k - 1] && s[l] == old_sorted[l - 1]);
                }
            }
            assert forall|y: int| 0 <= y < x + 1 implies #[trigger] s.contains(y as usize) by {
                if y == x {
                    assert(s[pos as int] == x);
                } else {
                    assert(old_sorted.contains(y as usize));
                    let k = choose|k: int| 0 <= k < old_sorted.len() && old_sorted[k] == y as usize;
                    if k < pos {
                        assert(s[k] == old_sorted[k]);
                    } else {
                        assert(s[k + 1] == old_sorted[k]);
                    }
                }
            }
        }
        x = x + 1;
    }
    let cap = if limit < SEARCH_RESULTS_MAX {
        limit
    } else {
        SEARCH_RESULTS_MAX
    };
    let ghost full = sorted@;
    sorted.truncate(cap);
    proof {
        let s = sorted@;
        assert forall|y: int, k: int|
            0 <= y < n && !s.contains(y as usize) && 0 <= k < s.len() implies #[trigger] ranks_before(
            cs,
            s[k] as int,
            y,
        ) by {
            assert(full.contains(y as usize));
            let p = choose|p: int| 0 <= p < full.len() && full[p] == y as usize;
            if p < s.len() {
                assert(s[p] == full[p]);
            }
            assert(s[k] == full[k]);
        }
        assert forall|k: int, l: int| 0 <= k < s.len() && 0 <= l < s.len() && k != l implies s[k]
            != s[l] by {
            if k < l {
                assert(ranks_before(cs, s[k] as int, s[l] as int));
            } else {
                assert(ranks_before(cs, s[l] as int, s[k] as int));
            }
            lemma_ranks_before_asymmetric(cs, s[k] as int, s[k] as int);
        }
    }
    sorted
}

/// Two ranked orders that agree before position `k` cannot have a better
/// candidate at `k` in the first than in the second.
proof fn lemma_no_better_at_first_difference(
    cs: Seq<ScoredCandidate>,
    o1: Seq<usize>,
    o2: Seq<usize>,
    k: int,
)
    requires
        o1.len() == o2.len(),
        is_ranked(cs, o1),
        is_ranked(cs, o2),
        leaves_out_only_worse(cs, o2),
        0 <= k < o1.len(),
        forall|j: int| 0 <= j < k ==> o1[j] == o2[j],
    ensures
        !ranks_before(cs, o1[k] as int, o2[k] as int),
{
    let a = o1[k];
    let b = o2[k];
    lemma_ranks_before_asymmetric(cs, a as int, b as int);
    lemma_ranks_before_asymmetric(cs, a as int, a as int);
    if !ranks_before(cs, a as int, b as int) {
    } else if o2.contains(a) {
        let p = choose|p: int| 0 <= p < o2.len() && o2[p] == a;
        if p < k {
            assert(o1[p] == a);
            assert(ranks_before(cs, o1[p] as int, o1[k] as int));
        } else if p > k {
            assert(ranks_before(cs, o2[k] as int, o2[p] as int));
        }
    } else {
        assert(ranks_before(cs, o2[k] as int, a as int));
    }
}

proof fn lemma_rank_orders_agree_upto(
    cs: Seq<ScoredCandidate>,
    o1: Seq<usize>,
    o2: Seq<usize>,
    k: int,
)
    requires
        o1.len() == o2.len(),
        is_ranked(cs, o1),
        is_ranked(cs, o2),
        leaves_out_only_worse(cs, o1),
        leaves_out_only_worse(cs, o2),
        0 <= k < o1.len(),
    ensures
        forall|j: int| 0 <= j <= k ==> o1[j] == o2[j],
    decreases k,
{
    if k > 0 {
        lemma_rank_orders_agree_upto(cs, o1, o2, k - 1);
    }
    if o1[k] != o2[k] {
        lemma_ranks_before_total(cs, o1[k] as int, o2[k] as int);
        if ranks_before(cs, o1[k] as int, o2[k] as int) {
            lemma_no_better_at_first_difference(cs, o1, o2, k);
        } else {
            lemma_no_better_at_first_difference(cs, o2, o1, k);
        }
    }
}

/// Ranking is deterministic: the order that `rank_order` promises is unique,
/// so any two orders of the same length that are ranked and leave out only
/// worse candidates are the same order.
pub proof fn lemma_rank_order_unique(cs: Seq<ScoredCandidate>, o1: Seq<usize>, o2: Seq<usize>)
    requires
        o1.len() == o2.len(),
        is_ranked(cs, o1),
        is_ranked(cs, o2),
        leaves_out_only_worse(cs, o1),
        leaves_out_only_worse(cs, o2),
    ensures
        o1 == o2,
{
    if o1.len() > 0 {
        lemma_rank_orders_agree_upto(cs, o1, o2, o1.len() - 1);
    }
    assert(o1 =~= o2);
}

// ---------------------------------------------------------------------------
// Independence from the input order
// ---------------------------------------------------------------------------

/// What the order looks at in a candidate: its score key and its id bytes.
pub open spec fn entry_value(cs: Seq<ScoredCandidate>, i: int) -> (u64, Seq<u8>) {
    (cs[i].score_key, id_bytes(cs[i]))
}

/// A strictly better (score, id) value: a higher score, or the same score
/// and a smaller id.
pub open spec fn value_before(a: (u64, Seq<u8>), b: (u64, Seq<u8>)) -> bool {
    a.0 > b.0 || (a.0 == b.0 && bytes_lt(a.1, b.1))
}

/// `cs2` holds the candidates of `cs` in another order: position `i` of `cs2`
/// holds what position `p[i]` of `cs` holds, and `p` is a bijection.
pub open spec fn is_permutation_of(cs2: Seq<ScoredCandidate>, cs: Seq<ScoredCandidate>, p: Seq<usize>) -> bool {
    &&& cs2.len() == cs.len()
    &&& p.len() == cs.len()
    &&& forall|i: int| 0 <= i < p.len() ==> #[trigger] p[i] < cs.len()
    &&& forall|i: int, j: int| 0 <= i < p.len() && 0 <= j < p.len() && i != j ==> p[i] != p[j]
    &&& forall|x: usize| x < cs.len() ==> #[trigger] p.contains(x)
    &&& forall|i: int|
        0 <= i < cs2.len() ==> (#[trigger] cs2[i]).candidate_id@ == cs[p[i] as int].candidate_id@
            && cs2[i].score_key == cs[p[i] as int].score_key
}

/// `o` lists distinct positions of `cs` whose values never increase, and
/// every position left out has a value no better than any listed one.
spec fn weakly_ranked(cs: Seq<ScoredCandidate>, o: Seq<usize>) -> bool {
    &&& forall|k: int| 0 <= k < o.len() ==> #[trigger] o[k] < cs.len()
    &&& o.no_duplicates()
    &&& forall|k: int, l: int|
        0 <= k < l < o.len() ==> !value_before(
            entry_value(cs, #[trigger] o[l] as int),
            entry_value(cs, #[trigger] o[k] as int),
        )
    &&& forall|x: int, k: int|
        0 <= x < cs.len() && !o.contains(x as usize) && 0 <= k < o.len() ==> !#[trigger] value_before(
            entry_value(cs, x),
            entry_value(cs, o[k] as int),
        )
}

proof fn lemma_value_before_facts(a: (u64, Seq<u8>), b: (u64, Seq<u8>), c: (u64, Seq<u8>))
    ensures
        !value_before(a, a),
        value_before(a, b) ==> !value_before(b, a),
        a != b ==> value_before(a, b) || value_before(b, a),
        value_before(a, b) && value_before(b, c) ==> value_before(a, c),
{
    lemma_bytes_lt_irreflexive(a.1);
    if bytes_lt(a.1, b.1) {
        lemma_bytes_lt_asymmetric(a.1, b.1);
    }
    if a != b && a.0 == b.0 && a.1 != b.1 {
        lemma_bytes_lt_total(a.1, b.1);
    }
    if bytes_lt(a.1, b.1) && bytes_lt(b.1, c.1) {
        lemma_bytes_lt_transitive(a.1, b.1, c.1);
    }
}

proof fn lemma_ranks_before_weakly(cs: Seq<ScoredCandidate>, i: int, j: int)
    requires
        ranks_before(cs, i, j),
    ensures
        !value_before(entry_value(cs, j), entry_value(cs, i)),
{
    lemma_value_before_facts(entry_value(cs, i), entry_value(cs, j), entry_value(cs, j));
}

proof fn lemma_ranked_is_weakly_ranked(cs: Seq<ScoredCandidate>, o: Seq<usize>)
    requires
        is_ranked(cs, o),
        leaves_out_only_worse(cs, o),
    ensures
        weakly_ranked(cs, o),
{
    assert forall|k: int, l: int| 0 <= k < l < o.len() implies !value_before(
        entry_value(cs, #[trigger] o[l] as int),
        entry_value(cs, #[trigger] o[k] as int),
    ) by {
        lemma_ranks_before_weakly(cs, o[k] as int, o[l] as int);
    }
    assert forall|x: int, k: int|
        0 <= x < cs.len() && !o.contains(x as usize) && 0 <= k < o.len() implies !#[trigger] value_before(
        entry_value(cs, x),
        entry_value(cs, o[k] as int),
    ) by {
        assert(ranks_before(cs, o[k] as int, x));
        lemma_ranks_before_weakly(cs, o[k] as int, x);
    }
    assert forall|k: int, l: int| 0 <= k < o.len() && 0 <= l < o.len() && k != l implies o[k]
        != o[l] by {
        lemma_ranks_before_asymmetric(cs, o[k] as int, o[k] as int);
        if k < l {
            assert(ranks_before(cs, o[k] as int, o[l] as int));
        } else {
            assert(ranks_before(cs, o[l] as int, o[k] as int));
        }
    }
}

proof fn lemma_filter_no_duplicates(s: Seq<usize>, f: spec_fn(usize) -> bool)
    requires
        s.no_duplicates(),
    ensures
        s.filter(f).no_duplicates(),
    decreases s.len(),
{
    reveal(Seq::filter);
    if s.len() > 0 {
        let rest = s.drop_last();
        assert(rest.no_duplicates());
        lemma_filter_no_duplicates(rest, f);
        if f(s.last()) {
            if rest.filter(f).contains(s.last()) {
                rest.lemma_filter_contains_rev(f, s.last());
                let i = choose|i: int| 0 <= i < rest.len() && rest[i] == s.last();
                assert(s[i] == s[s.len() - 1]);
            }
        }
    }
}

/// Sequences with the same values position by position keep the same number
/// of entries of any one value.
proof fn lemma_filter_len_same_values(
    cs: Seq<ScoredCandidate>,
    s1: Seq<usize>,
    s2: Seq<usize>,
    v: (u64, Seq<u8>),
)
    requires
        s1.len() == s2.len(),
        forall|k: int|
            0 <= k < s1.len() ==> entry_value(cs, #[trigger] s1[k] as int) == entry_value(
                cs,
                s2[k] as int,
            ),
    ensures
        s1.filter(|x: usize| entry_value(cs, x as int) == v).len() == s2.filter(
            |x: usize| entry_value(cs, x as int) == v,
        ).len(),
    decreases s1.len(),
{
    reveal(Seq::filter);
    if s1.len() > 0 {
        assert(entry_value(cs, s1[s1.len() - 1] as int) == entry_value(cs, s2[s1.len() - 1] as int));
        lemma_filter_len_same_values(cs, s1.drop_last(), s2.drop_last(), v);
    }
}

/// Two weakly ranked orders that agree in value before position `k` cannot
/// hold a strictly better value at `k` in the first than in the second: the
/// first would then list more entries of that value than `cs` holds.
proof fn lemma_no_better_value_at_first_difference(
    cs: Seq<ScoredCandidate>,
    o1: Seq<usize>,
    o2: Seq<usize>,
    k: int,
)
    requires
        o1.len() == o2.len(),
        weakly_ranked(cs, o1),
        weakly_ranked(cs, o2),
        0 <= k < o1.len(),
        forall|j: int|
            0 <= j < k ==> entry_value(cs, #[trigger] o1[j] as int) == entry_value(cs, o2[j] as int),
    ensures
        !value_before(entry_value(cs, o1[k] as int), entry_value(cs, o2[k] as int)),
{
    let v = entry_value(cs, o1[k] as int);
    let w = entry_value(cs, o2[k] as int);
    if value_before(v, w) {
        let f = |x: usize| entry_value(cs, x as int) == v;
        let a = o1.take(k + 1).filter(f);
        let b = o2.filter(f);
        // Every entry of value v in o1's prefix is listed in o2 as well.
        assert forall|x: usize| a.to_set().contains(x) implies b.to_set().contains(x) by {
            assert(a.contains(x));
            o1.take(k + 1).lemma_filter_contains_rev(f, x);
            let i = choose|i: int| 0 <= i < k + 1 && #[trigger] o1.take(k + 1)[i] == x;
            assert(o1[i] == x);
            reveal(Seq::filter);
            #[allow(deprecated)]
            o1.take(k + 1).filter_lemma(f);
            let j = choose|j: int| 0 <= j < a.len() && a[j] == x;
            assert(f(a[j]));
            if !o2.contains(x) {
                assert(!value_before(entry_value(cs, x as int), entry_value(cs, o2[k] as int)));
            }
            let m = choose|m: int| 0 <= m < o2.len() && o2[m] == x;
            #[allow(deprecated)]
            o2.filter_lemma(f);
            assert(b.contains(o2[m]));
        }
        lemma_filter_no_duplicates(o1.take(k + 1), f);
        lemma_filter_no_duplicates(o2, f);
        a.unique_seq_to_set();
        b.unique_seq_to_set();
        vstd::set_lib::lemma_len_subset(a.to_set(), b.to_set());
        // o1's prefix holds one more entry of value v than o2's prefix.
        assert(o1.take(k + 1) == o1.take(k).push(o1[k]));
        o1.take(k).lemma_filter_push(o1[k], f);
        lemma_filter_len_same_values(cs, o1.take(k), o2.take(k), v);
        // o2 holds no entry of value v from position k on.
        assert(o2 == o2.take(k) + o2.skip(k));
        Seq::filter_distributes_over_add(o2.take(k), o2.skip(k), f);
        assert forall|l: int| 0 <= l < o2.skip(k).len() implies !f(#[trigger] o2.skip(k)[l]) by {
            assert(o2.skip(k)[l] == o2[k + l]);
            lemma_value_before_facts(v, w, w);
            if l > 0 {
                assert(!value_before(entry_value(cs, o2[k + l] as int), w));
            }
        }
        o2.skip(k).lemma_all_neg_filter_empty(f);
        assert(false);
    }
}

proof fn lemma_weakly_ranked_same_values(
    cs: Seq<ScoredCandidate>,
    o1: Seq<usize>,
    o2: Seq<usize>,
    k: int,
)
    requires
        o1.len() == o2.len(),
        weakly_ranked(cs, o1),
        weakly_ranked(cs, o2),
        0 <= k < o1.len(),
    ensures
        forall|j: int|
            0 <= j <= k ==> entry_value(cs, #[trigger] o1[j] as int) == entry_value(cs, o2[j] as int),
    decreases k,
{
    if k > 0 {
        lemma_weakly_ranked_same_values(cs, o1, o2, k - 1);
    }
    let v = entry_value(cs, o1[k] as int);
    let w = entry_value(cs, o2[k] as int);
    lemma_no_better_value_at_first_difference(cs, o1, o2, k);
    lemma_no_better_value_at_first_difference(cs, o2, o1, k);
    lemma_value_before_facts(v, w, w);
}

/// Ranking does not depend on the order in which the candidates come: when
/// `cs2` is `cs` in another order, the best `result_count` candidates of
/// either, best first, have the same ids and score keys, position by
/// position. Only the positions that name them differ. (The length bound
/// holds of every slice that `rank_order` is given.)
pub proof fn lemma_rank_order_ignores_input_order(
    cs: Seq<ScoredCandidate>,
    cs2: Seq<ScoredCandidate>,
    p: Seq<usize>,
    limit: int,
    o1: Seq<usize>,
    o2: Seq<usize>,
)
    requires
        cs.len() <= usize::MAX,
        is_permutation_of(cs2, cs, p),
        o1.len() == result_count(cs.len() as int, limit),
        is_ranked(cs, o1),
        leaves_out_only_worse(cs, o1),
        o2.len() == result_count(cs2.len() as int, limit),
        is_ranked(cs2, o2),
        leaves_out_only_worse(cs2, o2),
    ensures
        forall|k: int|
            0 <= k < o1.len() ==> (#[trigger] cs2[o2[k] as int]).candidate_id@ == cs[o1[k] as int].candidate_id@
                && cs2[o2[k] as int].score_key == cs[o1[k] as int].score_key,
{
    broadcast use vstd::utf8::encode_utf8_decode_utf8;

    lemma_ranked_is_weakly_ranked(cs, o1);
    lemma_ranked_is_weakly_ranked(cs2, o2);
    let o3 = o2.map_values(|i: usize| p[i as int]);
    assert forall|i: int| 0 <= i < cs2.len() implies entry_value(cs2, i) == entry_value(
        cs,
        #[trigger] p[i] as int,
    ) by {
        assert(cs2[i].candidate_id@ == cs[p[i] as int].candidate_id@);
    }
    // o3 names, in cs, the candidates that o2 names in cs2.
    assert(weakly_ranked(cs, o3)) by {
        assert forall|k: int| 0 <= k < o3.len() implies #[trigger] o3[k] < cs.len() by {
            assert(o2[k] < cs2.len());
        }
        assert forall|k: int, l: int| 0 <= k < o3.len() && 0 <= l < o3.len() && k != l implies o3[k]
            != o3[l] by {
            assert(o2[k] != o2[l]);
        }
        assert forall|k: int, l: int| 0 <= k < l < o3.len() implies !value_before(
            entry_value(cs, #[trigger] o3[l] as int),
            entry_value(cs, #[trigger] o3[k] as int),
        ) by {
            assert(entry_value(cs2, o2[l] as int) == entry_value(cs, p[o2[l] as int] as int));
            assert(entry_value(cs2, o2[k] as int) == entry_value(cs, p[o2[k] as int] as int));
            assert(!value_before(entry_value(cs2, o2[l] as int), entry_value(cs2, o2[k] as int)));
        }
        assert forall|x: int, k: int|
            0 <= x < cs.len() && !o3.contains(x as usize) && 0 <= k < o3.len() implies !#[trigger] value_before(
            entry_value(cs, x),
            entry_value(cs, o3[k] as int),
        ) by {
            assert(p.contains(x as usize));
            let y = choose|i: int| 0 <= i < p.len() && p[i] == x as usize;
            if o2.contains(y as usize) {
                let m = choose|m: int| 0 <= m < o2.len() && o2[m] == y as usize;
                assert(o3[m] == p[o2[m] as int]);
                assert(o3[m] == x as usize);
                assert(o3.contains(x as usize));
            }
            assert(p[y] as int == x);
            assert(o3[k] == p[o2[k] as int]);
            assert(entry_value(cs2, y) == entry_value(cs, p[y] as int));
            assert(entry_value(cs2, o2[k] as int) == entry_value(cs, p[o2[k] as int] as int));
            assert(!value_before(entry_value(cs2, y), entry_value(cs2, o2[k] as int)));
        }
    }
    if o1.len() > 0 {
        lemma_weakly_ranked_same_values(cs, o1, o3, o1.len() - 1);
    }
    assert forall|k: int| 0 <= k < o1.len() implies (#[trigger] cs2[o2[k] as int]).candidate_id@
        == cs[o1[k] as int].candidate_id@ && cs2[o2[k] as int].score_key == cs[o1[k]
        as int].score_key by {
        assert(entry_value(cs, o1[k] as int) == entry_value(cs, o3[k] as int));
        assert(entry_value(cs2, o2[k] as int) == entry_value(cs, p[o2[k] as int] as int));
        assert(vstd::utf8::decode_utf8(id_bytes(cs2[o2[k] as int])) == cs2[o2[k] as int].candidate_id@);
        assert(vstd::utf8::decode_utf8(id_bytes(cs[o1[k] as int])) == cs[o1[k] as int].candidate_id@);
    }
}

} // verus!
