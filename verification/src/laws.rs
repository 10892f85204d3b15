//! What holds of the library as a whole, proved from the contracts of its
//! functions.

use crate::bits::{bit, lemma_bits_determine};
use crate::design::{lemma_few_negative_rows, lemma_incidence_entries};
use crate::hadamard_matrix::{
    incidence_grid, is_hadamard_grid, is_normal, lemma_normalized_is_hadamard, normalized_grid,
    HadamardMatrix,
};
use crate::scheme_impl::{
    attested, attests, carries, conflict, consistent, is_sharing, lemma_vote_counted, reconstructs,
    votes, Part,
};
use crate::threshold_of;
use vstd::prelude::*;

verus! {

/// `chosen` are shares taken from `all`, no row twice.
pub open spec fn is_selection(all: Seq<Part>, chosen: Seq<Part>) -> bool {
    &&& forall|k: int|
        0 <= k < chosen.len() ==> (#[trigger] chosen[k]).number() < all.len() && chosen[k]
            == all[chosen[k].number() as int]
    &&& forall|k: int, l: int|
        0 <= k < l < chosen.len() ==> (#[trigger] chosen[k]).number() != (#[trigger] chosen[l]).number()
}

/// Among as many distinct rows as the threshold, one carries any given bit.
proof fn lemma_some_row_carries(h: Seq<Seq<i32>>, chosen: Seq<Part>, p: int) -> (k: int)
    requires
        is_hadamard_grid(h),
        is_normal(h),
        0 <= p < 32,
        chosen.len() >= threshold_of(h.len() - 1),
        forall|k: int| 0 <= k < chosen.len() ==> (#[trigger] chosen[k]).number() < h.len() - 1,
        forall|k: int, l: int|
            0 <= k < l < chosen.len() ==> (#[trigger] chosen[k]).number() != (
            #[trigger] chosen[l]).number(),
    ensures
        0 <= k < chosen.len(),
        carries(incidence_grid(h), chosen[k].number() as int, p),
{
    let inc = incidence_grid(h);
    let d = h.len() - 1;
    lemma_incidence_entries(h);
    assert(chosen.len() > 0);
    assert(chosen[0].number() < d);
    let c = p % d;
    if forall|k: int| 0 <= k < chosen.len() ==> !carries(inc, (#[trigger] chosen[k]).number() as int, p) {
        let rows = Seq::new(chosen.len(), |k: int| chosen[k].number() + 1);
        assert forall|k: int| 0 <= k < rows.len() implies 0 <= #[trigger] rows[k] < h.len()
            && h[rows[k]][c + 1] == -1 by {
            let r = chosen[k].number() as int;
            assert(!carries(inc, r, p));
            assert(inc[r][c] == (if h[r + 1][c + 1] == 1 {
                1i32
            } else {
                0i32
            }));
            assert(h[r + 1][c + 1] == 1 || h[r + 1][c + 1] == -1);
        }
        assert forall|k: int, l: int| 0 <= k < rows.len() && 0 <= l < rows.len() && k != l implies rows[k]
            != rows[l] by {
            if k < l {
                assert(chosen[k].number() != chosen[l].number());
            } else {
                assert(chosen[l].number() != chosen[k].number());
            }
        }
        lemma_few_negative_rows(h, c + 1, rows);
        assert(false);
    }
    choose|k: int| 0 <= k < chosen.len() && carries(inc, (#[trigger] chosen[k]).number() as int, p)
}

/// Any shares of a splitting, as many as the threshold and no row twice,
/// put the secret together.
///
/// Let `h` be a Hadamard matrix and `all` a splitting of `secret` along the
/// incidence matrix of its normal form. Let `chosen` be taken from `all`,
/// each row at most once, and at least as many as the threshold. Then what
/// `chosen` put together is `secret`.
pub proof fn law_threshold_shares_reconstruct(
    h: Seq<Seq<i32>>,
    secret: u32,
    all: Seq<Part>,
    chosen: Seq<Part>,
    value: u32,
)
    requires
        is_hadamard_grid(h),
        is_sharing(incidence_grid(normalized_grid(h)), secret, all),
        is_selection(all, chosen),
        chosen.len() >= threshold_of(h.len() - 1),
        reconstructs(incidence_grid(normalized_grid(h)), chosen, value),
    ensures
        value == secret,
{
    let normal = normalized_grid(h);
    let inc = incidence_grid(normal);
    lemma_normalized_is_hadamard(h);
    lemma_incidence_entries(normal);
    assert forall|p: int| 0 <= p < 32 implies bit(value, p) == bit(secret, p) by {
        let k = lemma_some_row_carries(normal, chosen, p);
        let r = chosen[k].number() as int;
        assert(chosen[k] == all[r]);
        assert(bit(all[r].data(), p) == bit(secret, p));
        if bit(secret, p) {
            assert(attests(inc, chosen[k], p));
        }
        if attested(inc, chosen, p) {
            let w = choose|w: int| 0 <= w < chosen.len() && #[trigger] attests(inc, chosen[w], p);
            let rw = chosen[w].number() as int;
            assert(chosen[w] == all[rw]);
            assert(bit(all[rw].data(), p) == bit(secret, p));
        }
        assert(bit(value, p) == attested(inc, chosen, p));
    }
    lemma_bits_determine(value, secret);
}

/// A changed bit that two shares speak of does not go unnoticed.
///
/// Let `parts` disagree on no bit, and let shares `k` and `l` both sit on
/// rows that carry bit `p`. If share `k` alone is changed, and bit `p` of
/// its payload is among what changed, the shares disagree: the list that
/// `validate` gives for them is not empty.
pub proof fn law_changed_bit_is_noticed(
    g: Seq<Seq<i32>>,
    parts: Seq<Part>,
    changed: Seq<Part>,
    k: int,
    l: int,
    p: int,
)
    requires
        consistent(g, parts),
        0 <= p < 32,
        0 <= k < parts.len(),
        0 <= l < parts.len(),
        k != l,
        carries(g, parts[k].number() as int, p),
        carries(g, parts[l].number() as int, p),
        changed.len() == parts.len(),
        forall|i: int| 0 <= i < parts.len() && i != k ==> changed[i] == parts[i],
        changed[k].number() == parts[k].number(),
        bit(changed[k].data(), p) != bit(parts[k].data(), p),
    ensures
        !consistent(g, changed),
{
    let v = bit(parts[l].data(), p);
    let all = parts.len() as int;
    if bit(parts[k].data(), p) != v {
        assert(votes(g, parts[l], p, v));
        assert(votes(g, parts[k], p, !v));
        lemma_vote_counted(g, parts, p, v, l, all);
        lemma_vote_counted(g, parts, p, !v, k, all);
        assert(conflict(g, parts, p));
    }
    assert(changed[l] == parts[l]);
    assert(votes(g, changed[l], p, v));
    assert(votes(g, changed[k], p, !v));
    lemma_vote_counted(g, changed, p, v, l, all);
    lemma_vote_counted(g, changed, p, !v, k, all);
    assert(conflict(g, changed, p));
}

/// Normalising a matrix that is in normal form changes nothing, and a
/// normalised matrix is in normal form.
pub proof fn law_normalize_is_idempotent(g: Seq<Seq<i32>>)
    requires
        is_hadamard_grid(g),
    ensures
        is_normal(g) ==> normalized_grid(g) == g,
        is_normal(normalized_grid(g)),
        normalized_grid(normalized_grid(g)) == normalized_grid(g),
{
    lemma_normalized_is_hadamard(g);
    lemma_normal_form_stays(g);
    lemma_normal_form_stays(normalized_grid(g));
}

/// Normalising a Hadamard matrix in normal form changes nothing.
proof fn lemma_normal_form_stays(g: Seq<Seq<i32>>)
    requires
        is_hadamard_grid(g),
    ensures
        is_normal(g) ==> normalized_grid(g) == g,
{
    if is_normal(g) {
        let h = normalized_grid(g);
        assert forall|a: int| 0 <= a < g.len() implies #[trigger] h[a] == g[a] by {
            assert(g[a][0] == 1);
            assert forall|b: int| 0 <= b < g.len() implies h[a][b] == g[a][b] by {
                assert(g[0][b] == 1);
                assert(g[0][0] == 1);
            }
            assert(h[a] =~= g[a]);
        }
        assert(h =~= g);
    }
}

/// The incidence matrix depends on the entries of the matrix alone: two
/// matrices with the same entries give the same incidence matrix.
pub proof fn law_incidence_is_determined(a: HadamardMatrix, b: HadamardMatrix)
    requires
        a@ == b@,
    ensures
        incidence_grid(a@) == incidence_grid(b@),
{
}

} // verus!
