//! Canonical, order-independent board signatures. Cell contents are sorted,
//! tableau piles are sorted as whole sequences of card codes, goal piles are
//! deliberately excluded; the canonical encoding is serialized to bytes and
//! hashed, and the first eight digest bytes form the signature key.

use sha2::Digest;
use vstd::prelude::*;
use vstd::relations::{sorted_by, total_ordering};
use vstd::seq_lib::lemma_sorted_unique;

use crate::board::Board;
use crate::card::{code, Card};
use crate::model::{BoardModel, PileKind, Position};

verus! {

broadcast use {
    vstd::multiset::group_multiset_axioms,
    vstd::seq_lib::group_to_multiset_ensures,
};

/// Numeric order on cell codes.
pub open spec fn leq16(a: u16, b: u16) -> bool {
    a <= b
}

/// Lexicographic order on sequences of card codes.
pub open spec fn lex_leq(a: Seq<u16>, b: Seq<u16>) -> bool
    decreases a.len(),
{
    if a.len() == 0 {
        true
    } else if b.len() == 0 {
        false
    } else if a.first() < b.first() {
        true
    } else if a.first() > b.first() {
        false
    } else {
        lex_leq(a.drop_first(), b.drop_first())
    }
}

proof fn lemma_lex_refl(a: Seq<u16>)
    ensures
        lex_leq(a, a),
    decreases a.len(),
{
    if a.len() > 0 {
        lemma_lex_refl(a.drop_first());
    }
}

proof fn lemma_lex_antisym(a: Seq<u16>, b: Seq<u16>)
    requires
        lex_leq(a, b),
        lex_leq(b, a),
    ensures
        a == b,
    decreases a.len(),
{
    if a.len() == 0 {
        assert(b.len() == 0);
        assert(a =~= b);
    } else {
        assert(b.len() > 0);
        assert(a.first() == b.first());
        lemma_lex_antisym(a.drop_first(), b.drop_first());
        assert forall|i: int| 0 <= i < a.len() implies a[i] == b[i] by {
            if i > 0 {
                assert(a.drop_first()[i - 1] == a[i]);
                assert(b.drop_first()[i - 1] == b[i]);
            }
        }
        assert(a =~= b);
    }
}

proof fn lemma_lex_trans(a: Seq<u16>, b: Seq<u16>, c: Seq<u16>)
    requires
        lex_leq(a, b),
        lex_leq(b, c),
    ensures
        lex_leq(a, c),
    decreases a.len(),
{
    if a.len() > 0 && b.len() > 0 && c.len() > 0 && a.first() == b.first() && b.first()
        == c.first() {
        lemma_lex_trans(a.drop_first(), b.drop_first(), c.drop_first());
    }
}

proof fn lemma_lex_connected(a: Seq<u16>, b: Seq<u16>)
    ensures
        lex_leq(a, b) || lex_leq(b, a),
    decreases a.len(),
{
    if a.len() > 0 && b.len() > 0 && a.first() == b.first() {
        lemma_lex_connected(a.drop_first(), b.drop_first());
    }
}

/// Both comparison relations used by the signature are total orders.
proof fn lemma_orders_total()
    ensures
        total_ordering(|a: u16, b: u16| leq16(a, b)),
        total_ordering(|a: Seq<u16>, b: Seq<u16>| lex_leq(a, b)),
{
    let lex = |a: Seq<u16>, b: Seq<u16>| lex_leq(a, b);
    assert forall|a: Seq<u16>| #[trigger] lex(a, a) by {
        lemma_lex_refl(a);
    }
    assert forall|a: Seq<u16>, b: Seq<u16>| #[trigger] lex(a, b) && #[trigger] lex(b, a)
        implies a == b by {
        lemma_lex_antisym(a, b);
    }
    assert forall|a: Seq<u16>, b: Seq<u16>, c: Seq<u16>|
        #[trigger] lex(a, b) && #[trigger] lex(b, c) implies lex(a, c) by {
        lemma_lex_trans(a, b, c);
    }
    assert forall|a: Seq<u16>, b: Seq<u16>| #[trigger] lex(a, b) || #[trigger] lex(b, a) by {
        lemma_lex_connected(a, b);
    }
}

/// The code of a pile's top card, 0 for an empty pile.
pub open spec fn top_code(p: Seq<Card>) -> u16 {
    if p.len() == 0 {
        0
    } else {
        code(p.last()) as u16
    }
}

/// The codes of the cells' occupants, in cell order.
pub open spec fn cell_codes(m: BoardModel) -> Seq<u16> {
    Seq::new(m.cells.len(), |i: int| top_code(m.cells[i]))
}

/// Each tableau pile as its sequence of card codes, bottom first.
pub open spec fn stack_codes(m: BoardModel) -> Seq<Seq<u16>> {
    Seq::new(m.stacks.len(), |i: int| m.stacks[i].map_values(|c: Card| code(c) as u16))
}

/// The canonical (sorted) cell codes.
pub open spec fn canon_cells(m: BoardModel) -> Seq<u16> {
    cell_codes(m).sort_by(|a: u16, b: u16| leq16(a, b))
}

/// The canonical (sorted) tableau code sequences.
pub open spec fn canon_stacks(m: BoardModel) -> Seq<Seq<u16>> {
    stack_codes(m).sort_by(|a: Seq<u16>, b: Seq<u16>| lex_leq(a, b))
}

/// A code as two bytes, high byte first.
pub open spec fn enc16(x: u16) -> Seq<u8> {
    seq![(x / 256) as u8, (x % 256) as u8]
}

/// A list of codes as bytes.
pub open spec fn enc_list(s: Seq<u16>) -> Seq<u8>
    decreases s.len(),
{
    if s.len() == 0 {
        Seq::empty()
    } else {
        enc16(s.first()) + enc_list(s.drop_first())
    }
}

/// A list of piles as bytes: each pile's length, then its codes.
pub open spec fn enc_piles(s: Seq<Seq<u16>>) -> Seq<u8>
    decreases s.len(),
{
    if s.len() == 0 {
        Seq::empty()
    } else {
        enc16(s.first().len() as u16) + enc_list(s.first()) + enc_piles(s.drop_first())
    }
}

/// The canonical byte encoding of a board's non-goal state.
pub open spec fn sig_bytes(m: BoardModel) -> Seq<u8> {
    enc_list(canon_cells(m)) + enc_piles(canon_stacks(m))
}

/// What SHA-256 returns for a byte sequence.
pub uninterp spec fn digest_of(bytes: Seq<u8>) -> Seq<u8>;

/// Relies on sha2's `Sha256::digest`: the 32-byte SHA-256 digest of the
/// input, a function of the input bytes alone.
#[verifier::external_body]
fn sha256_digest(bytes: &Vec<u8>) -> (r: Vec<u8>)
    ensures
        r@ == digest_of(bytes@),
        r@.len() == 32,
{
    let d = sha2::Sha256::digest(bytes.as_slice());
    d.as_slice().to_vec()
}

/// The digest bytes from position `i` on, read as a little-endian integer,
/// stopping after the eighth byte.
pub open spec fn le_bytes(d: Seq<u8>, i: int) -> int
    decreases 8 - i,
{
    if i >= 8 {
        0
    } else {
        d[i] + 256 * le_bytes(d, i + 1)
    }
}

/// The signature key of a board: the first eight bytes of the digest of its
/// canonical encoding.
pub open spec fn sig_key(m: BoardModel) -> int {
    le_bytes(digest_of(sig_bytes(m)), 0)
}

/// Sort a vector of cell codes by selection of the minimum.
fn sort_codes(input: Vec<u16>) -> (out: Vec<u16>)
    ensures
        sorted_by(out@, |a: u16, b: u16| leq16(a, b)),
        out@.to_multiset() == input@.to_multiset(),
{
    let mut rest = input;
    let mut out: Vec<u16> = Vec::new();
    while rest.len() > 0
        invariant
            forall|i: int, j: int| 0 <= i < j < out@.len() ==> out@[i] <= out@[j],
            out@.to_multiset().add(rest@.to_multiset()) == input@.to_multiset(),
            forall|i: int, j: int|
                0 <= i < out@.len() && 0 <= j < rest@.len() ==> out@[i] <= rest@[j],
        decreases rest@.len(),
    {
        let mut min: usize = 0;
        let mut k: usize = 1;
        while k < rest.len()
            invariant
                min < k,
                k <= rest@.len(),
                min < rest@.len(),
                forall|j: int| 0 <= j < k ==> rest@[min as int] <= rest@[j],
            decreases rest@.len() - k,
        {
            if rest[k] < rest[min] {
                min = k;
            }
            k = k + 1;
        }
        let ghost old_rest = rest@;
        let ghost old_out = out@;
        let m = rest.remove(min);
        out.push(m);
        proof {
            assert(old_rest.remove(min as int).to_multiset() == old_rest.to_multiset().remove(
                old_rest[min as int],
            ));
            assert forall|x: u16|
                out@.to_multiset().add(rest@.to_multiset()).count(x) == input@.to_multiset().count(
                    x,
                ) by {
                assert(old_out.to_multiset().add(old_rest.to_multiset()).count(x)
                    == input@.to_multiset().count(x));
            }
            assert(out@.to_multiset().add(rest@.to_multiset()) =~= input@.to_multiset());
            assert forall|i: int, j: int|
                0 <= i < out@.len() && 0 <= j < rest@.len() implies out@[i] <= rest@[j] by {
                if j < min {
                    assert(rest@[j] == old_rest[j]);
                } else {
                    assert(rest@[j] == old_rest[j + 1]);
                }
            }
        }
    }
    proof {
        assert forall|i: int, j: int| 0 <= i < j < out@.len() implies (|a: u16, b: u16|
            leq16(a, b))(out@[i], out@[j]) by {}
    }
    out
}

/// Lexicographic comparison of two code vectors.
fn lex_leq_exec(a: &Vec<u16>, b: &Vec<u16>) -> (r: bool)
    ensures
        r == lex_leq(a@, b@),
{
    let mut i: usize = 0;
    proof {
        assert(a@.skip(0) =~= a@);
        assert(b@.skip(0) =~= b@);
    }
    while i < a.len() && i < b.len()
        invariant
            i <= a@.len(),
            i <= b@.len(),
            lex_leq(a@, b@) == lex_leq(a@.skip(i as int), b@.skip(i as int)),
        decreases a@.len() - i,
    {
        proof {
            assert(a@.skip(i as int).first() == a@[i as int]);
            assert(b@.skip(i as int).first() == b@[i as int]);
            assert(a@.skip(i as int).drop_first() =~= a@.skip(i + 1));
            assert(b@.skip(i as int).drop_first() =~= b@.skip(i + 1));
        }
        if a[i] < b[i] {
            return true;
        }
        if a[i] > b[i] {
            return false;
        }
        i = i + 1;
    }
    proof {
        if i >= a@.len() {
            assert(a@.skip(i as int).len() == 0);
        } else {
            assert(b@.skip(i as int).len() == 0);
            assert(a@.skip(i as int).len() > 0);
        }
    }
    a.len() <= b.len()
}

/// The code sequences held by a vector of code vectors.
pub open spec fn piles16(v: Seq<Vec<u16>>) -> Seq<Seq<u16>> {
    v.map_values(|p: Vec<u16>| p@)
}

/// Sort the tableau code sequences lexicographically, by selection of the
/// minimum.
fn sort_stack_codes(input: Vec<Vec<u16>>) -> (out: Vec<Vec<u16>>)
    ensures
        sorted_by(piles16(out@), |a: Seq<u16>, b: Seq<u16>| lex_leq(a, b)),
        piles16(out@).to_multiset() == piles16(input@).to_multiset(),
{
    let mut rest = input;
    let mut out: Vec<Vec<u16>> = Vec::new();
    while rest.len() > 0
        invariant
            forall|i: int, j: int|
                0 <= i < j < out@.len() ==> lex_leq(piles16(out@)[i], piles16(out@)[j]),
            piles16(out@).to_multiset().add(piles16(rest@).to_multiset()) == piles16(
                input@,
            ).to_multiset(),
            forall|i: int, j: int|
                0 <= i < out@.len() && 0 <= j < rest@.len() ==> lex_leq(
                    piles16(out@)[i],
                    piles16(rest@)[j],
                ),
        decreases rest@.len(),
    {
        let mut min: usize = 0;
        let mut k: usize = 1;
        proof {
            lemma_lex_refl(rest@[0]@);
        }
        while k < rest.len()
            invariant
                min < k,
                k <= rest@.len(),
                min < rest@.len(),
                forall|j: int| 0 <= j < k ==> lex_leq(rest@[min as int]@, rest@[j]@),
            decreases rest@.len() - k,
        {
            if !lex_leq_exec(&rest[min], &rest[k]) {
                proof {
                    lemma_lex_connected(rest@[min as int]@, rest@[k as int]@);
                    assert forall|j: int| 0 <= j < k + 1 implies lex_leq(
                        rest@[k as int]@,
                        rest@[j]@,
                    ) by {
                        if j < k {
                            lemma_lex_trans(rest@[k as int]@, rest@[min as int]@, rest@[j]@);
                        } else {
                            lemma_lex_refl(rest@[k as int]@);
                        }
                    }
                }
                min = k;
            }
            k = k + 1;
        }
        let ghost old_rest = piles16(rest@);
        let ghost old_out = piles16(out@);
        let m = rest.remove(min);
        out.push(m);
        proof {
            assert(piles16(out@) =~= old_out.push(m@));
            assert(piles16(rest@) =~= old_rest.remove(min as int));
            assert(old_rest.remove(min as int).to_multiset() == old_rest.to_multiset().remove(
                old_rest[min as int],
            ));
            assert forall|x: Seq<u16>|
                piles16(out@).to_multiset().add(piles16(rest@).to_multiset()).count(x) == piles16(
                    input@,
                ).to_multiset().count(x) by {
                assert(old_out.to_multiset().add(old_rest.to_multiset()).count(x) == piles16(
                    input@,
                ).to_multiset().count(x));
            }
            assert(piles16(out@).to_multiset().add(piles16(rest@).to_multiset()) =~= piles16(
                input@,
            ).to_multiset());
            assert forall|i: int, j: int|
                0 <= i < out@.len() && 0 <= j < rest@.len() implies lex_leq(
                piles16(out@)[i],
                piles16(rest@)[j],
            ) by {
                if i < old_out.len() {
                    assert(piles16(out@)[i] == old_out[i]);
                }
                if j < min {
                    assert(piles16(rest@)[j] == old_rest[j]);
                } else {
                    assert(piles16(rest@)[j] == old_rest[j + 1]);
                }
            }
        }
    }
    proof {
        assert forall|i: int, j: int| 0 <= i < j < piles16(out@).len() implies (|a: Seq<u16>,
            b: Seq<u16>| lex_leq(a, b))(piles16(out@)[i], piles16(out@)[j]) by {}
    }
    out
}

/// Append the two-byte encoding of a code.
fn push16(bytes: &mut Vec<u8>, x: u16)
    ensures
        final(bytes)@ == old(bytes)@ + enc16(x),
{
    bytes.push((x / 256) as u8);
    bytes.push((x % 256) as u8);
    proof {
        assert(old(bytes)@.push((x / 256) as u8).push((x % 256) as u8) =~= old(bytes)@ + enc16(
            x,
        ));
    }
}

impl Board {
    /// The signature key of this board's current state: two boards whose
    /// cells hold the same cards and whose tableau piles are the same
    /// piles, in any arrangement, get the same key; goal piles are ignored.
    pub fn board_signature(&self) -> (key: u64)
        requires
            self.model().wf(),
        ensures
            key as int == sig_key(self.model()),
    {
        let ghost m = self.model();
        // Collect and sort the cell codes.
        let mut cells: Vec<u16> = Vec::new();
        let mut i: usize = 0;
        while i < 4
            invariant
                self.model().wf(),
                m == self.model(),
                i <= 4,
                cells@ =~= cell_codes(m).take(i as int),
            decreases 4 - i,
        {
            let pile = &self.cells[i];
            if pile.len() == 0 {
                cells.push(0);
            } else {
                cells.push(crate::card::card_numerical(Some(&pile[pile.len() - 1])));
            }
            proof {
                assert(cells@ =~= cell_codes(m).take(i + 1));
            }
            i = i + 1;
        }
        proof {
            assert(cells@ =~= cell_codes(m));
        }
        let cells_sorted = sort_codes(cells);

        // Collect and sort the tableau codes.
        let mut stacks: Vec<Vec<u16>> = Vec::new();
        let mut s: usize = 0;
        while s < 10
            invariant
                self.model().wf(),
                m == self.model(),
                s <= 10,
                piles16(stacks@) =~= stack_codes(m).take(s as int),
            decreases 10 - s,
        {
            let pile = &self.stacks[s];
            let mut codes: Vec<u16> = Vec::new();
            let mut j: usize = 0;
            while j < pile.len()
                invariant
                    j <= pile@.len(),
                    codes@ =~= pile@.map_values(|c: Card| code(c) as u16).take(j as int),
                decreases pile@.len() - j,
            {
                codes.push(crate::card::card_numerical(Some(&pile[j])));
                proof {
                    assert(codes@ =~= pile@.map_values(|c: Card| code(c) as u16).take(j + 1));
                }
                j = j + 1;
            }
            proof {
                assert(codes@ =~= pile@.map_values(|c: Card| code(c) as u16));
            }
            let ghost oldstacks = stacks@;
            stacks.push(codes);
            proof {
                assert(piles16(stacks@) =~= piles16(oldstacks).push(codes@));
                assert(m.stacks[s as int] == pile@);
                assert(codes@ == stack_codes(m)[s as int]);
                assert(piles16(stacks@) =~= stack_codes(m).take(s + 1));
            }
            s = s + 1;
        }
        proof {
            assert(piles16(stacks@) =~= stack_codes(m));
        }
        let stacks_sorted = sort_stack_codes(stacks);
        proof {
            lemma_orders_total();
            cell_codes(m).lemma_sort_by_ensures(|a: u16, b: u16| leq16(a, b));
            lemma_sorted_unique(cells_sorted@, canon_cells(m), |a: u16, b: u16| leq16(a, b));
            stack_codes(m).lemma_sort_by_ensures(|a: Seq<u16>, b: Seq<u16>| lex_leq(a, b));
            lemma_sorted_unique(
                piles16(stacks_sorted@),
                canon_stacks(m),
                |a: Seq<u16>, b: Seq<u16>| lex_leq(a, b),
            );
            assert(cells_sorted@ == canon_cells(m));
            assert(piles16(stacks_sorted@) == canon_stacks(m));
            // Every sorted pile is one of the board's piles, so its length
            // fits the two-byte length field.
            assert forall|k: int| 0 <= k < stacks_sorted@.len() implies (#[trigger] stacks_sorted@[
                k
            ])@.len() <= 52 by {
                let x = piles16(stacks_sorted@)[k];
                assert(piles16(stacks_sorted@).contains(x));
                assert(piles16(stacks_sorted@).to_multiset().count(x) > 0);
                assert(stack_codes(m).to_multiset().count(x) > 0);
                assert(stack_codes(m).contains(x));
                let j = choose|j: int| 0 <= j < stack_codes(m).len() && stack_codes(m)[j] == x;
                crate::model::lemma_pile_len_bound(
                    m,
                    Position { kind: PileKind::Tableau, index: j as usize },
                );
            }
        }

        // Serialize the canonical encoding.
        let mut bytes: Vec<u8> = Vec::new();
        let mut i2: usize = 0;
        while i2 < cells_sorted.len()
            invariant
                i2 <= cells_sorted@.len(),
                bytes@ == enc_list(cells_sorted@.take(i2 as int)),
            decreases cells_sorted@.len() - i2,
        {
            proof {
                lemma_enc_list_step(cells_sorted@, i2 as int);
            }
            push16(&mut bytes, cells_sorted[i2]);
            i2 = i2 + 1;
        }
        proof {
            assert(cells_sorted@.take(cells_sorted@.len() as int) =~= cells_sorted@);
        }
        let ghost cell_bytes = bytes@;

        let mut s2: usize = 0;
        while s2 < stacks_sorted.len()
            invariant
                s2 <= stacks_sorted@.len(),
                bytes@ == cell_bytes + enc_piles(piles16(stacks_sorted@).take(s2 as int)),
                forall|k: int|
                    0 <= k < stacks_sorted@.len() ==> (#[trigger] stacks_sorted@[k])@.len() <= 52,
            decreases stacks_sorted@.len() - s2,
        {
            let ghost before = bytes@;
            let pile = &stacks_sorted[s2];
            push16(&mut bytes, pile.len() as u16);
            let mut j2: usize = 0;
            while j2 < pile.len()
                invariant
                    j2 <= pile@.len(),
                    pile@ == stacks_sorted@[s2 as int]@,
                    pile@.len() <= 52,
                    bytes@ == before + enc16(pile@.len() as u16) + enc_list(
                        pile@.take(j2 as int),
                    ),
                decreases pile@.len() - j2,
            {
                proof {
                    lemma_enc_list_step(pile@, j2 as int);
                }
                push16(&mut bytes, pile[j2]);
                j2 = j2 + 1;
            }
            proof {
                assert(pile@.take(pile@.len() as int) =~= pile@);
                lemma_enc_piles_step(piles16(stacks_sorted@), s2 as int);
            }
            s2 = s2 + 1;
        }
        proof {
            assert(piles16(stacks_sorted@).take(stacks_sorted@.len() as int) =~= piles16(
                stacks_sorted@,
            ));
            assert(bytes@ == sig_bytes(m));
        }

        // Hash and read the key.
        let d = sha256_digest(&bytes);
        let b0 = d[0] as u64;
        let b1 = d[1] as u64;
        let b2 = d[2] as u64;
        let b3 = d[3] as u64;
        let b4 = d[4] as u64;
        let b5 = d[5] as u64;
        let b6 = d[6] as u64;
        let b7 = d[7] as u64;
        let k6: u64 = b6 + 256 * b7;
        let k5: u64 = b5 + 256 * k6;
        let k4: u64 = b4 + 256 * k5;
        let k3: u64 = b3 + 256 * k4;
        let k2: u64 = b2 + 256 * k3;
        let k1: u64 = b1 + 256 * k2;
        let k0: u64 = b0 + 256 * k1;
        proof {
            assert(le_bytes(d@, 8) == 0);
            assert(le_bytes(d@, 7) == d@[7]);
            assert(le_bytes(d@, 6) == d@[6] + 256 * le_bytes(d@, 7));
            assert(le_bytes(d@, 5) == d@[5] + 256 * le_bytes(d@, 6));
            assert(le_bytes(d@, 4) == d@[4] + 256 * le_bytes(d@, 5));
            assert(le_bytes(d@, 3) == d@[3] + 256 * le_bytes(d@, 4));
            assert(le_bytes(d@, 2) == d@[2] + 256 * le_bytes(d@, 3));
            assert(le_bytes(d@, 1) == d@[1] + 256 * le_bytes(d@, 2));
            assert(le_bytes(d@, 0) == d@[0] + 256 * le_bytes(d@, 1));
        }
        k0
    }
}

/// Taking one more element extends the encoded prefix by that element.
proof fn lemma_enc_list_step(s: Seq<u16>, i: int)
    requires
        0 <= i < s.len(),
    ensures
        enc_list(s.take(i + 1)) == enc_list(s.take(i)) + enc16(s[i]),
    decreases i,
{
    if i == 0 {
        assert(s.take(1).first() == s[0]);
        assert(s.take(1).drop_first() =~= Seq::empty());
        assert(s.take(0) =~= Seq::<u16>::empty());
        assert(enc_list(s.take(1)) =~= enc_list(s.take(0)) + enc16(s[0]));
    } else {
        lemma_enc_list_step(s.drop_first(), i - 1);
        assert(s.take(i + 1).first() == s[0]);
        assert(s.take(i + 1).drop_first() =~= s.drop_first().take(i));
        assert(s.take(i).first() == s[0]);
        assert(s.take(i).drop_first() =~= s.drop_first().take(i - 1));
        assert(s.drop_first()[i - 1] == s[i]);
        assert(enc_list(s.take(i + 1)) =~= enc_list(s.take(i)) + enc16(s[i]));
    }
}

/// Taking one more pile extends the encoded prefix by that pile's encoding.
proof fn lemma_enc_piles_step(s: Seq<Seq<u16>>, i: int)
    requires
        0 <= i < s.len(),
    ensures
        enc_piles(s.take(i + 1)) == enc_piles(s.take(i)) + enc16(s[i].len() as u16) + enc_list(
            s[i],
        ),
    decreases i,
{
    if i == 0 {
        assert(s.take(1).first() == s[0]);
        assert(s.take(1).drop_first() =~= Seq::empty());
        assert(s.take(0) =~= Seq::<Seq<u16>>::empty());
        assert(enc_piles(s.take(1)) =~= enc_piles(s.take(0)) + enc16(s[0].len() as u16)
            + enc_list(s[0]));
    } else {
        lemma_enc_piles_step(s.drop_first(), i - 1);
        assert(s.take(i + 1).first() == s[0]);
        assert(s.take(i + 1).drop_first() =~= s.drop_first().take(i));
        assert(s.take(i).first() == s[0]);
        assert(s.take(i).drop_first() =~= s.drop_first().take(i - 1));
        assert(s.drop_first()[i - 1] == s[i]);
        assert(enc_piles(s.take(i + 1)) =~= enc_piles(s.take(i)) + enc16(s[i].len() as u16)
            + enc_list(s[i]));
    }
}

/// The signature is invariant under permuting the free-cell slots and under
/// permuting the tableau pile indices: two boards whose cells hold the same
/// multiset of cards and whose tableau piles are the same piles in any
/// arrangement have equal signature keys, whatever their goal piles hold.
pub proof fn lemma_signature_permutation_invariant(ma: BoardModel, mb: BoardModel)
    requires
        cell_codes(ma).to_multiset() == cell_codes(mb).to_multiset(),
        stack_codes(ma).to_multiset() == stack_codes(mb).to_multiset(),
    ensures
        sig_key(ma) == sig_key(mb),
{
    lemma_orders_total();
    cell_codes(ma).lemma_sort_by_ensures(|a: u16, b: u16| leq16(a, b));
    cell_codes(mb).lemma_sort_by_ensures(|a: u16, b: u16| leq16(a, b));
    stack_codes(ma).lemma_sort_by_ensures(|a: Seq<u16>, b: Seq<u16>| lex_leq(a, b));
    stack_codes(mb).lemma_sort_by_ensures(|a: Seq<u16>, b: Seq<u16>| lex_leq(a, b));
    lemma_sorted_unique(canon_cells(ma), canon_cells(mb), |a: u16, b: u16| leq16(a, b));
    lemma_sorted_unique(
        canon_stacks(ma),
        canon_stacks(mb),
        |a: Seq<u16>, b: Seq<u16>| lex_leq(a, b),
    );
    assert(canon_cells(ma) == canon_cells(mb));
    assert(canon_stacks(ma) == canon_stacks(mb));
    assert(sig_bytes(ma) == sig_bytes(mb));
}

} // verus!
