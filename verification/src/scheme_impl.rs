//! The sharing engine: splitting a 32-bit secret along the rows of an
//! incidence matrix, putting it together again, and finding shares that
//! contradict the others.

use crate::bits::{
    bit, lemma_bit_of_lone, lemma_bit_of_or, lemma_bit_of_single, lemma_bit_of_zero,
    lemma_single_bit_bound, SECRET_BITS,
};
use crate::error::SchemeError;
use crate::matrix::{dims, duplicate, entry_count, get, has_shape, is_square, Matrix};
use crate::random::coin;
use crate::scheme_traits::SharingScheme;
use vstd::prelude::*;

verus! {

/// One share: the number of the row that it was made with, and its payload.
#[derive(Clone, Copy, Debug)]
pub struct Part {
    number: usize,
    data: u32,
}

impl Part {
    /// The number of the row of the incidence matrix that made this share.
    pub closed spec fn spec_number(&self) -> usize {
        self.number
    }

    /// The payload of this share.
    pub closed spec fn spec_data(&self) -> u32 {
        self.data
    }

    /// The share of row `number_` with payload `data_`.
    pub fn from(number_: usize, data_: u32) -> (part: Self)
        ensures
            part.number() == number_,
            part.data() == data_,
    {
        Part { number: number_, data: data_ }
    }

    /// The number of the row of the incidence matrix that made this share.
    #[verifier::when_used_as_spec(spec_number)]
    pub fn number(&self) -> (n: usize)
        ensures
            n == self.number(),
    {
        self.number
    }

    /// The payload of this share.
    #[verifier::when_used_as_spec(spec_data)]
    pub fn data(&self) -> (d: u32)
        ensures
            d == self.data(),
    {
        self.data
    }
}

/// Row `row` of the incidence matrix `g` carries bit `p` of the secret: the
/// bits are laid over the columns block after block, so bit `p` falls on
/// column `p` modulo the order, and the row holds 1 there.
pub open spec fn carries(g: Seq<Seq<i32>>, row: int, p: int) -> bool {
    g[row][p % (g.len() as int)] == 1
}

/// `payload` is what row `row` makes of `secret` when `noise` supplies the
/// bits that the row does not carry.
pub open spec fn is_masked(g: Seq<Seq<i32>>, row: int, secret: u32, noise: u32, payload: u32) -> bool {
    forall|p: int|
        0 <= p < 32 ==> #[trigger] bit(payload, p) == (if carries(g, row, p) {
            bit(secret, p)
        } else {
            bit(noise, p)
        })
}

/// `parts` is a splitting of `secret` along `g`: one share for each row, in
/// the order of the rows, each agreeing with the secret in every bit that
/// its row carries. The other bits are noise, and nothing is said of them.
pub open spec fn is_sharing(g: Seq<Seq<i32>>, secret: u32, parts: Seq<Part>) -> bool {
    &&& parts.len() == g.len()
    &&& forall|i: int| 0 <= i < parts.len() ==> (#[trigger] parts[i]).number() == i
    &&& forall|i: int, p: int|
        0 <= i < parts.len() && 0 <= p < 32 && carries(g, i, p) ==> #[trigger] bit(
            parts[i].data(),
            p,
        ) == bit(secret, p)
}

/// Every share names a row of `g`.
pub open spec fn in_range(g: Seq<Seq<i32>>, parts: Seq<Part>) -> bool {
    forall|k: int| 0 <= k < parts.len() ==> (#[trigger] parts[k]).number() < g.len()
}

/// `part` says that bit `p` of the secret is set: its row carries the bit
/// and its payload has it set.
pub open spec fn attests(g: Seq<Seq<i32>>, part: Part, p: int) -> bool {
    carries(g, part.number() as int, p) && bit(part.data(), p)
}

/// Some share among `parts` says that bit `p` of the secret is set.
pub open spec fn attested(g: Seq<Seq<i32>>, parts: Seq<Part>, p: int) -> bool {
    exists|k: int| 0 <= k < parts.len() && #[trigger] attests(g, parts[k], p)
}

/// `value` is what `parts` put together: a bit is set exactly where some
/// share says so.
pub open spec fn reconstructs(g: Seq<Seq<i32>>, parts: Seq<Part>, value: u32) -> bool {
    forall|p: int| 0 <= p < 32 ==> #[trigger] bit(value, p) == attested(g, parts, p)
}

/// `part` votes `value` for bit `p`: its row carries the bit and its payload
/// holds `value` there.
pub open spec fn votes(g: Seq<Seq<i32>>, part: Part, p: int, value: bool) -> bool {
    carries(g, part.number() as int, p) && bit(part.data(), p) == value
}

/// How many of the first `upto` shares vote `value` for bit `p`.
pub open spec fn vote_count(g: Seq<Seq<i32>>, parts: Seq<Part>, p: int, value: bool, upto: int) -> int
    decreases upto,
{
    if upto <= 0 {
        0
    } else {
        vote_count(g, parts, p, value, upto - 1) + (if votes(g, parts[upto - 1], p, value) {
            1int
        } else {
            0int
        })
    }
}

/// The shares disagree on bit `p`: some vote 0 and some vote 1.
pub open spec fn conflict(g: Seq<Seq<i32>>, parts: Seq<Part>, p: int) -> bool {
    vote_count(g, parts, p, false, parts.len() as int) > 0 && vote_count(
        g,
        parts,
        p,
        true,
        parts.len() as int,
    ) > 0
}

/// The vote that loses on bit `p`: 1 where more shares vote 0 than 1, and 0
/// otherwise, so that a tie goes against the shares that vote 0.
pub open spec fn losing_vote(g: Seq<Seq<i32>>, parts: Seq<Part>, p: int) -> bool {
    vote_count(g, parts, p, false, parts.len() as int) > vote_count(
        g,
        parts,
        p,
        true,
        parts.len() as int,
    )
}

/// Share `k` is on the losing side of a disagreement on bit `p`.
pub open spec fn accused(g: Seq<Seq<i32>>, parts: Seq<Part>, k: int, p: int) -> bool {
    conflict(g, parts, p) && votes(g, parts[k], p, losing_vote(g, parts, p))
}

/// Row `r` is named by one of the first `shares` shares that is on the
/// losing side of a disagreement on bit `p`.
pub open spec fn suspicious_at(g: Seq<Seq<i32>>, parts: Seq<Part>, r: int, p: int, shares: int) -> bool {
    exists|k: int| 0 <= k < shares && parts[k].number() == r && #[trigger] accused(g, parts, k, p)
}

/// Row `r` is named by a share that is on the losing side of a disagreement
/// on one of the first `positions` bits.
pub open spec fn suspicious_before(g: Seq<Seq<i32>>, parts: Seq<Part>, r: int, positions: int) -> bool {
    exists|p: int|
        0 <= p < positions && #[trigger] suspicious_at(g, parts, r, p, parts.len() as int)
}

/// Row `r` is named by a share that is on the losing side of a disagreement
/// on some bit.
pub open spec fn suspicious(g: Seq<Seq<i32>>, parts: Seq<Part>, r: int) -> bool {
    suspicious_before(g, parts, r, 32)
}

/// The shares disagree on no bit.
pub open spec fn consistent(g: Seq<Seq<i32>>, parts: Seq<Part>) -> bool {
    forall|p: int| 0 <= p < 32 ==> !#[trigger] conflict(g, parts, p)
}

/// `list` holds the suspicious rows, each once, in ascending order.
pub open spec fn lists_suspects(g: Seq<Seq<i32>>, parts: Seq<Part>, list: Seq<usize>) -> bool {
    &&& forall|a: int, b: int| 0 <= a < b < list.len() ==> list[a] < list[b]
    &&& forall|r: usize| list.contains(r) <==> suspicious(g, parts, r as int)
}

/// One more share is heard: a bit is attested by the first `i + 1` shares
/// where the first `i` attest it or share `i` does.
proof fn lemma_attested_step(g: Seq<Seq<i32>>, parts: Seq<Part>, i: int, p: int)
    requires
        0 <= i < parts.len(),
    ensures
        attested(g, parts.take(i + 1), p) == (attested(g, parts.take(i), p) || attests(
            g,
            parts[i],
            p,
        )),
{
    let shorter = parts.take(i);
    let longer = parts.take(i + 1);
    if attested(g, longer, p) {
        let k = choose|k: int| 0 <= k < longer.len() && #[trigger] attests(g, longer[k], p);
        if k < i {
            assert(attests(g, shorter[k], p));
        }
    }
    if attested(g, shorter, p) {
        let k = choose|k: int| 0 <= k < shorter.len() && #[trigger] attests(g, shorter[k], p);
        assert(attests(g, longer[k], p));
    }
    if attests(g, parts[i], p) {
        assert(attests(g, longer[i], p));
    }
}

/// A count of votes lies between 0 and the number of shares counted.
proof fn lemma_vote_count_bounds(g: Seq<Seq<i32>>, parts: Seq<Part>, p: int, value: bool, upto: int)
    requires
        0 <= upto,
    ensures
        0 <= vote_count(g, parts, p, value, upto) <= upto,
    decreases upto,
{
    if upto > 0 {
        lemma_vote_count_bounds(g, parts, p, value, upto - 1);
    }
}

/// Where the count of a vote is positive, some share casts it.
proof fn lemma_vote_witness(g: Seq<Seq<i32>>, parts: Seq<Part>, p: int, value: bool, upto: int) -> (k:
    int)
    requires
        vote_count(g, parts, p, value, upto) > 0,
    ensures
        0 <= k < upto,
        votes(g, parts[k], p, value),
    decreases upto,
{
    if votes(g, parts[upto - 1], p, value) {
        upto - 1
    } else {
        lemma_vote_witness(g, parts, p, value, upto - 1)
    }
}

/// Where a share casts a vote, the count of that vote is positive.
pub proof fn lemma_vote_counted(g: Seq<Seq<i32>>, parts: Seq<Part>, p: int, value: bool, k: int, upto: int)
    requires
        0 <= k < upto,
        votes(g, parts[k], p, value),
    ensures
        vote_count(g, parts, p, value, upto) > 0,
    decreases upto,
{
    lemma_vote_count_bounds(g, parts, p, value, upto - 1);
    if k < upto - 1 {
        lemma_vote_counted(g, parts, p, value, k, upto - 1);
    }
}

/// The list of suspects is empty exactly when the shares disagree nowhere.
pub proof fn lemma_no_suspects_iff_consistent(g: Seq<Seq<i32>>, parts: Seq<Part>, list: Seq<usize>)
    requires
        lists_suspects(g, parts, list),
    ensures
        (list.len() == 0) == consistent(g, parts),
{
    if list.len() > 0 {
        let r = list[0];
        assert(list.contains(r));
        assert(suspicious(g, parts, r as int));
        let p = choose|p: int|
            0 <= p < 32 && #[trigger] suspicious_at(g, parts, r as int, p, parts.len() as int);
        let k = choose|k: int|
            0 <= k < parts.len() && parts[k].number() == r && #[trigger] accused(g, parts, k, p);
        assert(conflict(g, parts, p));
    }
    if !consistent(g, parts) {
        let p = choose|p: int| 0 <= p < 32 && #[trigger] conflict(g, parts, p);
        let side = losing_vote(g, parts, p);
        let k = lemma_vote_witness(g, parts, p, side, parts.len() as int);
        assert(accused(g, parts, k, p));
        let r = parts[k].number();
        assert(suspicious_at(g, parts, r as int, p, parts.len() as int));
        assert(suspicious(g, parts, r as int));
        assert(list.contains(r));
    }
}

/// The sharing engine over one incidence matrix.
pub struct HSS {
    mtx: Matrix,
}

impl View for HSS {
    type V = Seq<Seq<i32>>;

    closed spec fn view(&self) -> Seq<Seq<i32>> {
        self.mtx@
    }
}

impl HSS {
    #[verifier::type_invariant]
    spec fn well_formed(self) -> bool {
        is_square(self.mtx@)
    }

    /// The engine over a copy of the incidence matrix `mtx`.
    pub fn from(mtx: &Matrix) -> (hss: Self)
        requires
            is_square(mtx@),
        ensures
            hss@ == mtx@,
    {
        HSS { mtx: duplicate(mtx) }
    }

    /// The number of entries of the incidence matrix.
    pub fn mtx_len(&self) -> (len: usize)
        ensures
            len == self@.len() * self@.len(),
            is_square(self@),
    {
        proof {
            use_type_invariant(self);
        }
        let (n, c) = dims(&self.mtx);
        let len: usize = entry_count(&self.mtx);
        proof {
            if n > 0 {
                assert(self.mtx@[0].len() == c);
            } else {
                assert(n * c == 0) by (nonlinear_arith)
                    requires
                        n == 0,
                ;
                assert(n * n == 0) by (nonlinear_arith)
                    requires
                        n == 0,
                ;
            }
        }
        len
    }

    /// The share of row `row` for `secret`, with the bits that the row does
    /// not carry taken from `noise`.
    ///
    /// Fails with `InvalidShare` exactly when the matrix has no such row.
    pub fn share_row(&self, row: usize, secret: u32, noise: u32) -> (res: Result<Part, SchemeError>)
        ensures
            is_square(self@),
            row >= self@.len() ==> res == Err::<Part, SchemeError>(SchemeError::InvalidShare),
            row < self@.len() ==> res.is_ok() && res.unwrap().number() == row && is_masked(
                self@,
                row as int,
                secret,
                noise,
                res.unwrap().data(),
            ),
    {
        proof {
            use_type_invariant(self);
        }
        let (n, _) = dims(&self.mtx);
        if row >= n {
            return Err(SchemeError::InvalidShare);
        }
        let mut data: u32 = 0;
        let mut p: u32 = 0;
        proof {
            assert forall|q: int| 0 <= q < 32 implies !#[trigger] bit(data, q) by {
                lemma_bit_of_zero(q as u32);
            }
        }
        while p < SECRET_BITS
            invariant
                has_shape(self.mtx@, n as int, n as int),
                row < n,
                0 <= p <= 32,
                forall|q: int|
                    0 <= q < p ==> #[trigger] bit(data, q) == (if carries(self.mtx@, row as int, q) {
                        bit(secret, q)
                    } else {
                        bit(noise, q)
                    }),
                forall|q: int| p <= q < 32 ==> !#[trigger] bit(data, q),
            decreases 32 - p,
        {
            let source: u32 = if get(&self.mtx, row, p as usize % n) == 1 {
                secret
            } else {
                noise
            };
            let ghost before = data;
            data |= (1u32 << p) & source;
            proof {
                assert forall|q: int| 0 <= q < 32 implies #[trigger] bit(data, q) == (bit(before, q)
                    || (q == p && bit(source, q))) by {
                    lemma_bit_of_or(before, (1u32 << p) & source, q as u32);
                    lemma_bit_of_single(source, p, q as u32);
                }
            }
            p += 1;
        }
        Ok(Part { number: row, data })
    }
}

impl HSS {
    /// The noise for the share of row `row`: one random bit for each bit of
    /// the secret that the row does not carry, in ascending order of the
    /// bits, and 0 in the bits that it does carry.
    fn draw_noise(&self, row: usize, rng: &mut rand::rngs::ThreadRng) -> (noise: u32)
        requires
            row < self@.len(),
        ensures
            forall|q: int|
                0 <= q < 32 && carries(self@, row as int, q) ==> !#[trigger] bit(noise, q),
    {
        proof {
            use_type_invariant(self);
        }
        let (n, _) = dims(&self.mtx);
        let mut noise: u32 = 0;
        let mut p: u32 = 0;
        proof {
            assert forall|q: int| 0 <= q < 32 implies !#[trigger] bit(noise, q) by {
                lemma_bit_of_zero(q as u32);
            }
        }
        while p < SECRET_BITS
            invariant
                has_shape(self.mtx@, n as int, n as int),
                row < n,
                0 <= p <= 32,
                forall|q: int|
                    0 <= q < p && carries(self.mtx@, row as int, q) ==> !#[trigger] bit(noise, q),
                forall|q: int| p <= q < 32 ==> !#[trigger] bit(noise, q),
            decreases 32 - p,
        {
            if get(&self.mtx, row, p as usize % n) != 1 {
                let c: u32 = coin(rng);
                proof {
                    lemma_single_bit_bound(p);
                }
                let ghost before = noise;
                let drawn: u32 = (1u32 << p) * c;
                noise |= drawn;
                proof {
                    assert forall|q: int| 0 <= q < 32 implies #[trigger] bit(noise, q) == (bit(
                        before,
                        q,
                    ) || (q == p && c == 1)) by {
                        lemma_bit_of_or(before, drawn, q as u32);
                        if c == 0 {
                            lemma_bit_of_zero(q as u32);
                        } else {
                            lemma_bit_of_lone(p, q as u32);
                        }
                    }
                }
            }
            p += 1;
        }
        noise
    }

    /// Whether every share names a row of the matrix.
    fn all_in_range(&self, parts: &Vec<Part>) -> (ok: bool)
        ensures
            ok == in_range(self@, parts@),
    {
        let (n, _) = dims(&self.mtx);
        let mut k: usize = 0;
        while k < parts.len()
            invariant
                n == self.mtx@.len(),
                0 <= k <= parts@.len(),
                forall|l: int| 0 <= l < k ==> (#[trigger] parts@[l]).number() < n,
            decreases parts@.len() - k,
        {
            if parts[k].number() >= n {
                return false;
            }
            k += 1;
        }
        true
    }

    /// How many shares vote `value` for bit `p`.
    fn count_votes(&self, parts: &Vec<Part>, p: u32, value: bool) -> (count: usize)
        requires
            in_range(self@, parts@),
            p < 32,
        ensures
            count == vote_count(self@, parts@, p as int, value, parts@.len() as int),
    {
        proof {
            use_type_invariant(self);
        }
        let (n, _) = dims(&self.mtx);
        let mut count: usize = 0;
        let mut k: usize = 0;
        while k < parts.len()
            invariant
                has_shape(self.mtx@, n as int, n as int),
                in_range(self.mtx@, parts@),
                p < 32,
                0 <= k <= parts@.len(),
                count == vote_count(self.mtx@, parts@, p as int, value, k as int),
                count <= k,
            decreases parts@.len() - k,
        {
            let part = parts[k];
            if get(&self.mtx, part.number(), p as usize % n) == 1 && ((part.data() & (1u32 << p))
                != 0) == value {
                count += 1;
            }
            k += 1;
        }
        count
    }
}

impl SharingScheme for HSS {
    type Error = SchemeError;

    type SecretType = u32;

    type PartType = Part;

    /// Splits `secret` into one share for each row of the incidence matrix.
    ///
    /// Share `i` holds the bits of the secret that row `i` carries and a
    /// fresh random bit in every other place.
    fn share(&self, secret: u32) -> (res: Result<Vec<Part>, SchemeError>)
        ensures
            res.is_ok(),
            is_sharing(self@, secret, res.unwrap()@),
    {
        proof {
            use_type_invariant(self);
        }
        let (n, _) = dims(&self.mtx);
        let mut rng = rand::thread_rng();
        let mut res: Vec<Part> = Vec::new();
        let mut i: usize = 0;
        while i < n
            invariant
                n == self.mtx@.len(),
                0 <= i <= n,
                res@.len() == i,
                forall|a: int| 0 <= a < i ==> (#[trigger] res@[a]).number() == a,
                forall|a: int, p: int|
                    0 <= a < i && 0 <= p < 32 && carries(self.mtx@, a, p) ==> #[trigger] bit(
                        res@[a].data(),
                        p,
                    ) == bit(secret, p),
            decreases n - i,
        {
            let noise: u32 = self.draw_noise(i, &mut rng);
            match self.share_row(i, secret, noise) {
                Ok(part) => {
                    res.push(part);
                },
                Err(_) => {
                    assert(false);
                },
            }
            i += 1;
        }
        Ok(res)
    }

    /// Puts together what `parts` say of the secret: a bit is set where some
    /// share whose row carries that bit has it set. Nothing is checked but
    /// the row numbers.
    ///
    /// Fails with `InvalidShare` exactly when a share names a row that the
    /// matrix does not have.
    fn reconstruct(&self, parts: Vec<Part>) -> (res: Result<u32, SchemeError>)
        ensures
            !in_range(self@, parts@) ==> res == Err::<u32, SchemeError>(SchemeError::InvalidShare),
            in_range(self@, parts@) ==> res.is_ok() && reconstructs(self@, parts@, res.unwrap()),
    {
        proof {
            use_type_invariant(self);
        }
        if !self.all_in_range(&parts) {
            return Err(SchemeError::InvalidShare);
        }
        let (n, _) = dims(&self.mtx);
        let mut res: u32 = 0;
        let mut i: usize = 0;
        proof {
            assert forall|q: int| 0 <= q < 32 implies #[trigger] bit(res, q) == attested(
                self.mtx@,
                parts@.take(0),
                q,
            ) by {
                lemma_bit_of_zero(q as u32);
            }
        }
        while i < parts.len()
            invariant
                has_shape(self.mtx@, n as int, n as int),
                in_range(self.mtx@, parts@),
                0 <= i <= parts@.len(),
                forall|q: int|
                    0 <= q < 32 ==> #[trigger] bit(res, q) == attested(
                        self.mtx@,
                        parts@.take(i as int),
                        q,
                    ),
            decreases parts@.len() - i,
        {
            let part = parts[i];
            let ind: usize = part.number();
            let mut p: u32 = 0;
            while p < SECRET_BITS
                invariant
                    has_shape(self.mtx@, n as int, n as int),
                    0 <= i < parts@.len(),
                    part == parts@[i as int],
                    ind == part.number(),
                    ind < n,
                    0 <= p <= 32,
                    forall|q: int|
                        0 <= q < p ==> #[trigger] bit(res, q) == (attested(
                            self.mtx@,
                            parts@.take(i as int),
                            q,
                        ) || attests(self.mtx@, part, q)),
                    forall|q: int|
                        p <= q < 32 ==> #[trigger] bit(res, q) == attested(
                            self.mtx@,
                            parts@.take(i as int),
                            q,
                        ),
                decreases 32 - p,
            {
                if get(&self.mtx, ind, p as usize % n) == 1 {
                    let ghost before = res;
                    res |= (1u32 << p) & part.data();
                    proof {
                        assert forall|q: int| 0 <= q < 32 implies #[trigger] bit(res, q) == (bit(
                            before,
                            q,
                        ) || (q == p && bit(part.data(), q))) by {
                            lemma_bit_of_or(before, (1u32 << p) & part.data(), q as u32);
                            lemma_bit_of_single(part.data(), p, q as u32);
                        }
                    }
                }
                p += 1;
            }
            proof {
                assert forall|q: int| 0 <= q < 32 implies #[trigger] bit(res, q) == attested(
                    self.mtx@,
                    parts@.take(i + 1),
                    q,
                ) by {
                    lemma_attested_step(self.mtx@, parts@, i as int, q);
                }
            }
            i += 1;
        }
        proof {
            assert(parts@.take(parts@.len() as int) =~= parts@);
        }
        Ok(res)
    }

    /// The rows named by shares that lose a disagreement, in ascending
    /// order.
    ///
    /// For each bit, the shares whose rows carry it vote with their payload.
    /// Where both 0 and 1 get votes, the side with fewer votes loses, and
    /// on a tie the side that votes 0. The list is empty exactly when the
    /// shares disagree on no bit.
    ///
    /// Fails with `InvalidShare` exactly when a share names a row that the
    /// matrix does not have.
    fn validate(&self, parts: Vec<Part>) -> (res: Result<Vec<usize>, SchemeError>)
        ensures
            !in_range(self@, parts@) ==> res == Err::<Vec<usize>, SchemeError>(
                SchemeError::InvalidShare,
            ),
            in_range(self@, parts@) ==> res.is_ok() && lists_suspects(
                self@,
                parts@,
                res.unwrap()@,
            ) && (res.unwrap()@.len() == 0) == consistent(self@, parts@),
    {
        proof {
            use_type_invariant(self);
        }
        if !self.all_in_range(&parts) {
            return Err(SchemeError::InvalidShare);
        }
        let (n, _) = dims(&self.mtx);
        let ghost g = self.mtx@;
        let ghost all = parts@.len() as int;
        let mut marked: Vec<bool> = Vec::new();
        let mut r: usize = 0;
        while r < n
            invariant
                0 <= r <= n,
                marked@.len() == r,
                forall|x: int| 0 <= x < r ==> !#[trigger] marked@[x],
            decreases n - r,
        {
            marked.push(false);
            r += 1;
        }
        let mut p: u32 = 0;
        while p < SECRET_BITS
            invariant
                g == self.mtx@,
                all == parts@.len(),
                has_shape(g, n as int, n as int),
                in_range(g, parts@),
                0 <= p <= 32,
                marked@.len() == n,
                forall|x: int|
                    0 <= x < n ==> #[trigger] marked@[x] == suspicious_before(g, parts@, x, p as int),
            decreases 32 - p,
        {
            let zeros: usize = self.count_votes(&parts, p, false);
            let ones: usize = self.count_votes(&parts, p, true);
            let ghost start = marked@;
            if zeros > 0 && ones > 0 {
                let losing: bool = zeros > ones;
                let mut k: usize = 0;
                while k < parts.len()
                    invariant
                        g == self.mtx@,
                        all == parts@.len(),
                        has_shape(g, n as int, n as int),
                        in_range(g, parts@),
                        p < 32,
                        conflict(g, parts@, p as int),
                        losing == losing_vote(g, parts@, p as int),
                        0 <= k <= parts@.len(),
                        marked@.len() == n,
                        forall|x: int|
                            0 <= x < n ==> #[trigger] marked@[x] == (start[x] || suspicious_at(
                                g,
                                parts@,
                                x,
                                p as int,
                                k as int,
                            )),
                    decreases parts@.len() - k,
                {
                    let part = parts[k];
                    let ind: usize = part.number();
                    let ghost before = marked@;
                    if get(&self.mtx, ind, p as usize % n) == 1 && ((part.data() & (1u32 << p))
                        != 0) == losing {
                        marked.set(ind, true);
                        assert(accused(g, parts@, k as int, p as int));
                    }
                    proof {
                        assert forall|x: int| 0 <= x < n implies #[trigger] marked@[x] == (start[x]
                            || suspicious_at(g, parts@, x, p as int, k + 1)) by {
                            if suspicious_at(g, parts@, x, p as int, k + 1) {
                                let w = choose|w: int|
                                    0 <= w < k + 1 && parts@[w].number() == x && #[trigger] accused(
                                        g,
                                        parts@,
                                        w,
                                        p as int,
                                    );
                                if w < k {
                                    assert(suspicious_at(g, parts@, x, p as int, k as int));
                                }
                            }
                            if suspicious_at(g, parts@, x, p as int, k as int) {
                                let w = choose|w: int|
                                    0 <= w < k && parts@[w].number() == x && #[trigger] accused(
                                        g,
                                        parts@,
                                        w,
                                        p as int,
                                    );
                                assert(suspicious_at(g, parts@, x, p as int, k + 1));
                            }
                        }
                    }
                    k += 1;
                }
            }
            proof {
                assert forall|x: int| 0 <= x < n implies #[trigger] marked@[x] == suspicious_before(
                    g,
                    parts@,
                    x,
                    p + 1,
                ) by {
                    let here = suspicious_at(g, parts@, x, p as int, all);
                    if !conflict(g, parts@, p as int) {
                        if here {
                            let w = choose|w: int|
                                0 <= w < all && parts@[w].number() == x && #[trigger] accused(
                                    g,
                                    parts@,
                                    w,
                                    p as int,
                                );
                        }
                        assert(!here);
                    }
                    assert(marked@[x] == (start[x] || here));
                    if suspicious_before(g, parts@, x, p + 1) {
                        let q = choose|q: int|
                            0 <= q < p + 1 && #[trigger] suspicious_at(g, parts@, x, q, all);
                        if q < p {
                            assert(suspicious_before(g, parts@, x, p as int));
                        }
                    }
                    if suspicious_before(g, parts@, x, p as int) {
                        let q = choose|q: int|
                            0 <= q < p && #[trigger] suspicious_at(g, parts@, x, q, all);
                        assert(suspicious_before(g, parts@, x, p + 1));
                    }
                    if here {
                        assert(suspicious_before(g, parts@, x, p + 1));
                    }
                }
            }
            p += 1;
        }
        let mut res: Vec<usize> = Vec::new();
        let mut r: usize = 0;
        while r < n
            invariant
                0 <= r <= n,
                marked@.len() == n,
                forall|a: int| 0 <= a < res@.len() ==> #[trigger] res@[a] < r,
                forall|a: int, b: int| 0 <= a < b < res@.len() ==> res@[a] < res@[b],
                forall|x: usize| x < r ==> res@.contains(x) == marked@[x as int],
            decreases n - r,
        {
            if marked[r] {
                let ghost before = res@;
                res.push(r);
                proof {
                    assert(res@[before.len() as int] == r);
                    assert forall|x: usize| x < r + 1 implies res@.contains(x)
                        == marked@[x as int] by {
                        if before.contains(x) {
                            let a = choose|a: int| 0 <= a < before.len() && before[a] == x;
                            assert(res@[a] == x);
                        }
                    }
                }
            }
            r += 1;
        }
        proof {
            assert forall|x: usize| res@.contains(x) <==> suspicious(g, parts@, x as int) by {
                if res@.contains(x) {
                    let a = choose|a: int| 0 <= a < res@.len() && res@[a] == x;
                    assert(x < n);
                }
                if suspicious(g, parts@, x as int) {
                    let q = choose|q: int|
                        0 <= q < 32 && #[trigger] suspicious_at(g, parts@, x as int, q, all);
                    let w = choose|w: int|
                        0 <= w < all && parts@[w].number() == x && #[trigger] accused(
                            g,
                            parts@,
                            w,
                            q,
                        );
                    assert(x < n);
                }
            }
            lemma_no_suspects_iff_consistent(g, parts@, res@);
        }
        Ok(res)
    }
}

} // verus!
