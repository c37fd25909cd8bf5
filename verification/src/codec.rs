//! A human-readable serialization of a problem description: every number is
//! written as a fixed-width, twenty-digit decimal on a line of its own — the
//! station count, the train price, the budget, then the three matrices in
//! row-major order. Loading validates everything a problem must satisfy
//! (square symmetric matrices with a zero diagonal, at least two stations),
//! and a successful load of a saved description is exactly the description
//! that was saved.

use crate::problem::{lemma_u64_matrix_view, mat_at, matrix_valid, matrix_wf, Problem};
use vstd::arithmetic::div_mod::lemma_basic_div;
use vstd::arithmetic::div_mod::lemma_div_denominator;
use vstd::arithmetic::div_mod::lemma_div_multiples_vanish;
use vstd::arithmetic::div_mod::lemma_fundamental_div_mod;
use vstd::prelude::*;

verus! {

/// Ten to the power `e`.
pub open spec fn pow10(e: nat) -> int
    decreases e,
{
    if e == 0 {
        1
    } else {
        10 * pow10((e - 1) as nat)
    }
}

/// The byte of the decimal digit of `v` at position `i` of its twenty-digit
/// rendering, most significant first.
pub open spec fn digit_byte(v: u64, i: int) -> u8 {
    (((v as int / pow10((19 - i) as nat)) % 10) + 48) as u8
}

/// The twenty decimal digits of `v`, most significant first.
pub open spec fn digits20(v: u64) -> Seq<u8> {
    Seq::new(20, |i: int| digit_byte(v, i))
}

/// One serialized number: its twenty digits and a line break.
pub open spec fn word_bytes(v: u64) -> Seq<u8> {
    digits20(v).push(10u8)
}

/// The number a digit sequence denotes.
pub open spec fn num_of(d: Seq<u8>) -> int
    decreases d.len(),
{
    if d.len() == 0 {
        0
    } else {
        num_of(d.drop_last()) * 10 + (d.last() - 48)
    }
}

/// Every power of ten is positive.
proof fn lemma_pow10_pos(e: nat)
    ensures
        pow10(e) >= 1,
    decreases e,
{
    if e > 0 {
        lemma_pow10_pos((e - 1) as nat);
    }
}

/// The concrete powers of ten the renderer leans on: twenty digits cover
/// every machine word.
proof fn lemma_pow10_values()
    ensures
        pow10(19) == 10_000_000_000_000_000_000,
        pow10(20) == 100_000_000_000_000_000_000,
{
    reveal_with_fuel(pow10, 21);
}

/// The first `k` digits of the rendering of `v` denote `v` with its last
/// `20 - k` digits cut off.
proof fn lemma_digits_value(v: u64, k: int)
    requires
        0 <= k <= 20,
    ensures
        num_of(digits20(v).take(k)) == v as int / pow10((20 - k) as nat),
    decreases k,
{
    if k == 0 {
        lemma_pow10_values();
        lemma_pow10_pos(20);
        assert(pow10(20) == 100_000_000_000_000_000_000);
        lemma_basic_div(v as int, pow10(20));
    } else {
        lemma_digits_value(v, k - 1);
        assert(digits20(v).take(k).drop_last() =~= digits20(v).take(k - 1));
        assert(digits20(v).take(k).last() == digit_byte(v, k - 1));
        let x = v as int / pow10((20 - k) as nat);
        lemma_pow10_pos((20 - k) as nat);
        lemma_div_denominator(v as int, pow10((20 - k) as nat), 10);
        assert(pow10((21 - k) as nat) == 10 * pow10((20 - k) as nat));
        assert(pow10((20 - k) as nat) * 10 == 10 * pow10((20 - k) as nat))
            by (nonlinear_arith);
        assert(x / 10 == v as int / pow10((21 - k) as nat));
        lemma_fundamental_div_mod(x, 10);
    }
}

/// Two values with the same twenty-digit rendering are the same value.
pub proof fn lemma_digits20_injective(a: u64, b: u64)
    requires
        digits20(a) == digits20(b),
    ensures
        a == b,
{
    lemma_digits_value(a, 20);
    lemma_digits_value(b, 20);
    assert(pow10(0) == 1);
    assert(a as int / 1 == a as int);
    assert(b as int / 1 == b as int);
}

/// Append the serialized form of one number.
#[verifier::loop_isolation(false)]
pub fn push_word(out: &mut Vec<u8>, v: u64)
    ensures
        final(out)@ == old(out)@ + word_bytes(v),
{
    proof {
        lemma_pow10_values();
    }
    let mut p: u64 = 10_000_000_000_000_000_000;
    let mut k: usize = 0;
    while k < 20
        invariant
            k <= 20,
            k < 20 ==> p as int == pow10((19 - k) as nat),
            out@ == old(out)@ + digits20(v).take(k as int),
        decreases 20 - k,
    {
        proof {
            lemma_pow10_pos((19 - k) as nat);
        }
        let d: u8 = ((v / p) % 10) as u8 + 48;
        proof {
            assert(d == digit_byte(v, k as int));
        }
        out.push(d);
        proof {
            assert(out@ =~= old(out)@ + digits20(v).take(k as int + 1));
        }
        if k < 19 {
            proof {
                assert(pow10((19 - k) as nat) == 10 * pow10((18 - k) as nat));
                lemma_pow10_pos((18 - k) as nat);
                lemma_div_multiples_vanish(pow10((18 - k) as nat), 10);
            }
            p = p / 10;
        }
        k = k + 1;
    }
    out.push(10u8);
    proof {
        assert(digits20(v).take(20) =~= digits20(v));
        assert(out@ =~= old(out)@ + word_bytes(v));
    }
}

/// The bytes at `pos` are the serialization of the number `v`.
pub open spec fn word_at(s: Seq<u8>, pos: int, v: u64) -> bool {
    pos + 21 <= s.len() && s.subrange(pos, pos + 21) == word_bytes(v)
}

/// A rendered prefix never exceeds the rendered value.
proof fn lemma_digits_prefix_bound(v: u64, k: int)
    requires
        0 <= k <= 20,
    ensures
        0 <= num_of(digits20(v).take(k)) <= v,
{
    lemma_digits_value(v, k);
    lemma_pow10_pos((20 - k) as nat);
    vstd::arithmetic::div_mod::lemma_div_is_ordered_by_denominator(
        v as int,
        1,
        pow10((20 - k) as nat),
    );
    vstd::arithmetic::div_mod::lemma_div_is_ordered(0, v as int, pow10((20 - k) as nat));
}

/// Read one serialized number at `pos`: exactly twenty digits and a line
/// break, in the canonical form the writer produces. Anything else is
/// rejected; the serialization of a number is always read back as exactly
/// that number.
#[verifier::loop_isolation(false)]
pub fn read_word(s: &Vec<u8>, pos: usize) -> (r: Option<u64>)
    ensures
        r matches Some(v) ==> word_at(s@, pos as int, v),
        forall|v: u64| word_at(s@, pos as int, v) ==> r == Some(v),
{
    if pos >= s.len() || s.len() - pos < 21 {
        return None;
    }
    let mut acc: u64 = 0;
    let mut k: usize = 0;
    while k < 20
        invariant
            k <= 20,
            pos + 21 <= s@.len(),
            forall|v: u64|
                word_at(s@, pos as int, v) ==> acc as int == num_of(
                    #[trigger] digits20(v).take(k as int),
                ),
        decreases 20 - k,
    {
        let ghost acc0 = acc;
        let b = s[pos + k];
        proof {
            assert forall|v: u64| word_at(s@, pos as int, v) implies 48 <= b <= 57 && (b - 48)
                as int == (digits20(v)[k as int] - 48) && acc as int * 10 + (b - 48) <= v by {
                assert(s@.subrange(pos as int, pos as int + 21)[k as int] == s@[pos + k]);
                assert(word_bytes(v)[k as int] == digit_byte(v, k as int));
                assert(digits20(v).take(k as int + 1).drop_last() =~= digits20(v).take(k as int));
                assert(digits20(v).take(k as int + 1).last() == digit_byte(v, k as int));
                lemma_digits_prefix_bound(v, k as int + 1);
            }
        }
        if b < 48 || b > 57 {
            return None;
        }
        let d = (b - 48) as u64;
        acc = match acc.checked_mul(10) {
            Some(x) => x,
            None => { return None },
        };
        acc = match acc.checked_add(d) {
            Some(x) => x,
            None => { return None },
        };
        proof {
            assert forall|v: u64| word_at(s@, pos as int, v) implies acc as int == num_of(
                digits20(v).take(k as int + 1),
            ) by {
                assert(digits20(v).take(k as int + 1).drop_last() =~= digits20(v).take(k as int));
                assert(digits20(v).take(k as int + 1).last() == digit_byte(v, k as int));
                assert(s@.subrange(pos as int, pos as int + 21)[k as int] == s@[pos + k]);
                assert(acc0 as int == num_of(digits20(v).take(k as int)));
                assert(acc as int == acc0 as int * 10 + (b - 48));
            }
        }
        k = k + 1;
    }
    proof {
        assert forall|v: u64| word_at(s@, pos as int, v) implies acc == v && s@[pos + 20] == 10 by {
            assert(digits20(v).take(20) =~= digits20(v));
            lemma_digits_value(v, 20);
            assert(pow10(0) == 1);
            assert(v as int / 1 == v as int);
            assert(s@.subrange(pos as int, pos as int + 21)[20] == s@[pos + 20]);
            assert(word_bytes(v)[20] == 10u8);
        }
    }
    if s[pos + 20] != 10 {
        return None;
    }
    // The digits name a candidate value; the candidate counts only if its
    // own rendering is exactly what stands in the input.
    let mut tmp: Vec<u8> = Vec::new();
    push_word(&mut tmp, acc);
    let mut k2: usize = 0;
    while k2 < 21
        invariant
            k2 <= 21,
            pos + 21 <= s@.len(),
            tmp@ == word_bytes(acc),
            forall|m: int| 0 <= m < k2 ==> tmp@[m] == s@[pos + m],
        decreases 21 - k2,
    {
        if tmp[k2] != s[pos + k2] {
            proof {
                assert forall|v: u64| !word_at(s@, pos as int, v) by {
                    if word_at(s@, pos as int, v) {
                        assert(acc == v);
                        assert(s@.subrange(pos as int, pos as int + 21)[k2 as int] == s@[pos
                            + k2]);
                        assert(false);
                    }
                }
            }
            return None;
        }
        k2 = k2 + 1;
    }
    proof {
        assert(s@.subrange(pos as int, pos as int + 21) =~= word_bytes(acc));
    }
    Some(acc)
}

/// The mathematical content of a problem description.
pub struct ProblemModel {
    pub n: usize,
    pub track_costs: Seq<Seq<u64>>,
    pub track_times: Seq<Seq<u64>>,
    pub travel_frequencies: Seq<Seq<u64>>,
    pub train_price: u64,
    pub total_budget: u64,
}

impl Problem {
    /// The mathematical content of this problem.
    pub open spec fn model(&self) -> ProblemModel {
        ProblemModel {
            n: self.n,
            track_costs: self.track_costs.deep_view(),
            track_times: self.track_times.deep_view(),
            travel_frequencies: self.travel_frequencies.deep_view(),
            train_price: self.train_price,
            total_budget: self.total_budget,
        }
    }
}

/// A valid problem model: at least two stations, all three matrices square,
/// symmetric, with a zero diagonal.
pub open spec fn model_wf(pm: ProblemModel) -> bool {
    &&& pm.n >= 2
    &&& matrix_wf(pm.track_costs, pm.n as int)
    &&& matrix_wf(pm.track_times, pm.n as int)
    &&& matrix_wf(pm.travel_frequencies, pm.n as int)
}

/// The serialized form of the first `j` entries of one matrix row.
pub open spec fn row_bytes_upto(row: Seq<u64>, j: int) -> Seq<u8>
    decreases j,
{
    if j <= 0 {
        Seq::empty()
    } else {
        row_bytes_upto(row, j - 1) + word_bytes(row[j - 1])
    }
}

/// The serialized form of the first `i` rows of a matrix.
pub open spec fn mat_bytes_upto(m: Seq<Seq<u64>>, i: int) -> Seq<u8>
    decreases i,
{
    if i <= 0 {
        Seq::empty()
    } else {
        mat_bytes_upto(m, i - 1) + row_bytes_upto(m[i - 1], m[i - 1].len() as int)
    }
}

/// The serialized form of a whole problem description: the station count,
/// the train price, the budget, then the three matrices row by row.
pub open spec fn encode_spec(pm: ProblemModel) -> Seq<u8> {
    word_bytes(pm.n as u64) + word_bytes(pm.train_price) + word_bytes(pm.total_budget)
        + mat_bytes_upto(pm.track_costs, pm.track_costs.len() as int) + mat_bytes_upto(
        pm.track_times,
        pm.track_times.len() as int,
    ) + mat_bytes_upto(pm.travel_frequencies, pm.travel_frequencies.len() as int)
}

/// Append the serialized form of one matrix.
#[verifier::loop_isolation(false)]
fn push_matrix(out: &mut Vec<u8>, m: &Vec<Vec<u64>>, n: usize)
    requires
        m.deep_view().len() == n,
        forall|i: int| 0 <= i < n ==> (#[trigger] m.deep_view()[i]).len() == n,
    ensures
        final(out)@ == old(out)@ + mat_bytes_upto(m.deep_view(), n as int),
{
    let ghost mv = m.deep_view();
    let mut i: usize = 0;
    while i < n
        invariant
            i <= n,
            out@ == old(out)@ + mat_bytes_upto(mv, i as int),
        decreases n - i,
    {
        let ghost base = out@;
        let mut j: usize = 0;
        while j < n
            invariant
                i < n,
                j <= n,
                out@ == base + row_bytes_upto(mv[i as int], j as int),
            decreases n - j,
        {
            push_word(out, mat_at(m, i, j));
            proof {
                assert(out@ =~= base + row_bytes_upto(mv[i as int], j as int + 1));
            }
            j = j + 1;
        }
        proof {
            assert(out@ =~= old(out)@ + mat_bytes_upto(mv, i as int + 1));
        }
        i = i + 1;
    }
}

/// Serialize a problem description.
pub fn encode_problem(p: &Problem) -> (r: Vec<u8>)
    requires
        p.wf(),
    ensures
        r@ == encode_spec(p.model()),
{
    let mut out: Vec<u8> = Vec::new();
    push_word(&mut out, p.n as u64);
    push_word(&mut out, p.train_price);
    push_word(&mut out, p.total_budget);
    push_matrix(&mut out, &p.track_costs, p.n);
    push_matrix(&mut out, &p.track_times, p.n);
    push_matrix(&mut out, &p.travel_frequencies, p.n);
    proof {
        assert(out@ =~= encode_spec(p.model()));
    }
    out
}

/// Read one serialized matrix, advancing the position word by word. When the
/// input at `pos` is known to serialize a matrix `mv` of side `n`, the read
/// cannot fail.
#[verifier::loop_isolation(false)]
fn read_matrix(s: &Vec<u8>, pos: usize, n: usize, expected: Ghost<Option<Seq<Seq<u64>>>>) -> (r:
    Option<(Vec<Vec<u64>>, usize)>)
    requires
        pos <= s@.len(),
        expected@ matches Some(mv) ==> {
            &&& mv.len() == n
            &&& forall|i: int| 0 <= i < n ==> (#[trigger] mv[i]).len() == n
            &&& pos + 21 * (n as int) * (n as int) <= s@.len()
            &&& s@.subrange(pos as int, pos + 21 * (n as int) * (n as int)) == mat_bytes_upto(
                mv,
                n as int,
            )
        },
    ensures
        r matches Some((m, p2)) ==> {
            &&& pos <= p2 <= s@.len()
            &&& m.deep_view().len() == n
            &&& forall|i: int| 0 <= i < n ==> (#[trigger] m.deep_view()[i]).len() == n
            &&& s@.subrange(pos as int, p2 as int) == mat_bytes_upto(m.deep_view(), n as int)
        },
        expected@ is Some ==> r is Some,
{
    let ghost n_i = n as int;
    let slen: usize = s.len();
    let mut m: Vec<Vec<u64>> = Vec::new();
    let mut cur = pos;
    let mut i: usize = 0;
    while i < n
        invariant
            slen == s@.len(),
            i <= n,
            pos <= cur <= s@.len(),
            m@.len() == i,
            forall|a: int| 0 <= a < i ==> (#[trigger] m@[a])@.len() == n,
            s@.subrange(pos as int, cur as int) == mat_bytes_upto(m.deep_view(), i as int),
            expected@ is Some ==> cur as int == pos + 21 * n_i * (i as int),
        decreases n - i,
    {
        let ghost mv0 = m.deep_view();
        let ghost row_base = cur;
        let mut row: Vec<u64> = Vec::new();
        let mut j: usize = 0;
        while j < n
            invariant
                slen == s@.len(),
                i < n,
                j <= n,
                pos <= row_base <= cur <= s@.len(),
                row@.len() == j,
                s@.subrange(row_base as int, cur as int) == row_bytes_upto(row@, j as int),
                expected@ is Some ==> cur as int == pos + 21 * n_i * (i as int) + 21 * (j as int),
            decreases n - j,
        {
            proof {
                if let Some(mv) = expected@ {
                    let off = 21 * n_i * (i as int) + 21 * (j as int);
                    assert(off + 21 <= 21 * n_i * n_i) by (nonlinear_arith)
                        requires
                            0 <= i < n_i && 0 <= j < n_i && off == 21 * n_i * (i as int) + 21 * (
                            j as int),
                    ;
                    lemma_mat_row_at(mv, n_i, n_i, i as int);
                    lemma_row_word_at(mv[i as int], n_i, j as int);
                    lemma_mat_bytes_len(mv, n_i, n_i);
                    lemma_row_bytes_len(mv[i as int], n_i);
                    assert(21 * n_i * (i as int) >= 0 && 21 * n_i * (i as int + 1) <= 21 * n_i
                        * n_i) by (nonlinear_arith)
                        requires
                            0 <= i < n_i,
                    ;
                    assert(21 * n_i * (i as int + 1) == 21 * n_i * (i as int) + 21 * n_i)
                        by (nonlinear_arith);
                    let rowslice = mat_bytes_upto(mv, n_i).subrange(
                        21 * n_i * (i as int),
                        21 * n_i * (i as int + 1),
                    );
                    assert(rowslice == row_bytes_upto(mv[i as int], n_i));
                    let word = word_bytes(mv[i as int][j as int]);
                    assert forall|t: int| 0 <= t < 21 implies #[trigger] s@.subrange(
                        cur as int,
                        cur as int + 21,
                    )[t] == word[t] by {
                        assert(rowslice.subrange(21 * (j as int), 21 * (j as int) + 21)[t]
                            == word[t]);
                        assert(rowslice[21 * (j as int) + t] == mat_bytes_upto(mv, n_i)[21 * n_i * (
                        i as int) + 21 * (j as int) + t]);
                        assert(s@.subrange(pos as int, pos + 21 * n_i * n_i)[off + t] == s@[pos
                            + off + t]);
                    }
                    assert(s@.subrange(cur as int, cur as int + 21) =~= word);
                    assert(word_at(s@, cur as int, mv[i as int][j as int]));
                }
            }
            let v = match read_word(s, cur) {
                Some(v) => v,
                None => { return None },
            };
            let ghost row0 = row@;
            row.push(v);
            proof {
                assert(row@.take(j as int) =~= row0);
                assert(s@.subrange(row_base as int, cur as int + 21) =~= s@.subrange(
                    row_base as int,
                    cur as int,
                ) + s@.subrange(cur as int, cur as int + 21));
                assert(row_bytes_upto(row@, j as int + 1) == row_bytes_upto(row@, j as int)
                    + word_bytes(row@[j as int]));
                assert(row_bytes_upto(row@, j as int) == row_bytes_upto(row0, j as int)) by {
                    lemma_row_bytes_prefix(row0, row@, j as int);
                }
            }
            cur = cur + 21;
            j = j + 1;
        }
        m.push(row);
        proof {
            lemma_u64_matrix_view(&m);
            assert(m.deep_view()[i as int] == m@[i as int]@);
            assert forall|a: int| 0 <= a < i implies #[trigger] m.deep_view()[a] == mv0[a] by {
                assert(m.deep_view()[a] == m@[a]@);
            }
            assert(mat_bytes_upto(m.deep_view(), i as int) == mat_bytes_upto(mv0, i as int)) by {
                lemma_mat_bytes_prefix(mv0, m.deep_view(), i as int);
            }
            assert(s@.subrange(pos as int, cur as int) =~= s@.subrange(pos as int, row_base as int)
                + s@.subrange(row_base as int, cur as int));
            if expected@ is Some {
                assert(21 * n_i * (i as int) + 21 * n_i == 21 * n_i * (i as int + 1))
                    by (nonlinear_arith);
            }
        }
        i = i + 1;
    }
    Some((m, cur))
}

/// Rows that agree on their first `j` entries serialize alike up to `j`.
proof fn lemma_row_bytes_prefix(r1: Seq<u64>, r2: Seq<u64>, j: int)
    requires
        forall|k: int| 0 <= k < j ==> r1[k] == r2[k],
    ensures
        row_bytes_upto(r1, j) == row_bytes_upto(r2, j),
    decreases j,
{
    if j > 0 {
        lemma_row_bytes_prefix(r1, r2, j - 1);
    }
}

/// Matrices that agree on their first `i` rows serialize alike up to `i`.
proof fn lemma_mat_bytes_prefix(m1: Seq<Seq<u64>>, m2: Seq<Seq<u64>>, i: int)
    requires
        forall|k: int| 0 <= k < i ==> m1[k] == m2[k],
    ensures
        mat_bytes_upto(m1, i) == mat_bytes_upto(m2, i),
    decreases i,
{
    if i > 0 {
        lemma_mat_bytes_prefix(m1, m2, i - 1);
    }
}

/// Within a serialized row, the word of entry `j` stands at offset `21 * j`.
proof fn lemma_row_word_at(row: Seq<u64>, jmax: int, j: int)
    requires
        0 <= j < jmax,
    ensures
        row_bytes_upto(row, jmax).subrange(21 * j, 21 * j + 21) == word_bytes(row[j]),
    decreases jmax,
{
    lemma_row_bytes_len(row, jmax - 1);
    lemma_row_bytes_len(row, jmax);
    if j == jmax - 1 {
        assert(row_bytes_upto(row, jmax).subrange(21 * j, 21 * j + 21) =~= word_bytes(row[j]));
    } else {
        lemma_row_word_at(row, jmax - 1, j);
        assert(row_bytes_upto(row, jmax).subrange(21 * j, 21 * j + 21) =~= row_bytes_upto(
            row,
            jmax - 1,
        ).subrange(21 * j, 21 * j + 21));
    }
}

/// Within a serialized matrix of `rl`-entry rows, row `i` stands at offset
/// `21 * rl * i`.
proof fn lemma_mat_row_at(m: Seq<Seq<u64>>, rl: int, imax: int, i: int)
    requires
        0 <= i < imax,
        0 <= rl,
        forall|k: int| 0 <= k < imax ==> (#[trigger] m[k]).len() == rl,
    ensures
        mat_bytes_upto(m, imax).subrange(21 * rl * i, 21 * rl * (i + 1)) == row_bytes_upto(
            m[i],
            rl,
        ),
    decreases imax,
{
    lemma_mat_bytes_len(m, rl, imax - 1);
    lemma_mat_bytes_len(m, rl, imax);
    lemma_row_bytes_len(m[imax - 1], rl);
    assert(21 * rl * imax == 21 * rl * (imax - 1) + 21 * rl) by (nonlinear_arith);
    if i == imax - 1 {
        assert(mat_bytes_upto(m, imax).subrange(21 * rl * i, 21 * rl * (i + 1)) =~= row_bytes_upto(
            m[i],
            rl,
        ));
    } else {
        lemma_mat_row_at(m, rl, imax - 1, i);
        assert(21 * rl * (i + 1) <= 21 * rl * (imax - 1)) by (nonlinear_arith)
            requires
                0 <= rl && i + 1 <= imax - 1,
        ;
        assert(21 * rl * i >= 0) by (nonlinear_arith)
            requires
                0 <= rl && 0 <= i,
        ;
        let a = mat_bytes_upto(m, imax);
        let b = mat_bytes_upto(m, imax - 1);
        let lo = 21 * rl * i;
        let hi = 21 * rl * (i + 1);
        assert(hi == lo + 21 * rl) by (nonlinear_arith)
            requires
                lo == 21 * rl * i && hi == 21 * rl * (i + 1),
        ;
        assert(a == b + row_bytes_upto(m[imax - 1], m[imax - 1].len() as int));
        assert forall|t: int| 0 <= t < hi - lo implies a.subrange(lo, hi)[t] == b.subrange(
            lo,
            hi,
        )[t] by {
            assert(a[lo + t] == b[lo + t]);
        }
        assert(a.subrange(lo, hi) =~= b.subrange(lo, hi));
    }
}

/// Load a problem description from its serialized form. Everything a valid
/// description must satisfy is checked: a malformed input is rejected. A
/// successful load returns a valid problem whose serialization is exactly
/// the input, so it can only be the description that was saved — and the
/// serialization of a valid description always loads.
pub fn decode_problem(s: &Vec<u8>) -> (r: Option<Problem>)
    ensures
        r matches Some(q) ==> q.wf() && s@ == encode_spec(q.model()),
        forall|pm: ProblemModel| model_wf(pm) && s@ == encode_spec(pm) ==> r is Some,
{
    let ghost hyp: bool = exists|pm: ProblemModel| model_wf(pm) && s@ == encode_spec(pm);
    let ghost pm0: ProblemModel = if hyp {
        choose|pm: ProblemModel| model_wf(pm) && s@ == encode_spec(pm)
    } else {
        arbitrary()
    };
    proof {
        if hyp {
            lemma_encode_parts(pm0);
            let nn = 21 * (pm0.n as int) * (pm0.n as int);
            assert(nn >= 0) by (nonlinear_arith)
                requires
                    nn == 21 * (pm0.n as int) * (pm0.n as int) && pm0.n >= 0,
            ;
            assert(word_at(s@, 0, pm0.n as u64));
            assert(word_at(s@, 21, pm0.train_price));
            assert(word_at(s@, 42, pm0.total_budget));
        }
    }
    let n_w = match read_word(s, 0) {
        Some(v) => v,
        None => { return None },
    };
    if n_w < 2 || n_w > (usize::MAX as u64) {
        proof {
            if hyp {
                assert(n_w == pm0.n as u64);
                assert(false);
            }
        }
        return None;
    }
    let n = n_w as usize;
    proof {
        if hyp {
            assert(n == pm0.n);
        }
    }
    let train_price = match read_word(s, 21) {
        Some(v) => v,
        None => { return None },
    };
    let total_budget = match read_word(s, 42) {
        Some(v) => v,
        None => { return None },
    };
    let ghost e1: Option<Seq<Seq<u64>>> = if hyp {
        Some(pm0.track_costs)
    } else {
        None
    };
    let (track_costs, p1) = match read_matrix(s, 63, n, Ghost(e1)) {
        Some(x) => x,
        None => { return None },
    };
    proof {
        if hyp {
            lemma_u64_matrix_view(&track_costs);
            lemma_mat_bytes_len(track_costs.deep_view(), n as int, n as int);
            assert(p1 as int == 63 + 21 * (n as int) * (n as int));
        }
    }
    let ghost e2: Option<Seq<Seq<u64>>> = if hyp {
        Some(pm0.track_times)
    } else {
        None
    };
    let (track_times, p2) = match read_matrix(s, p1, n, Ghost(e2)) {
        Some(x) => x,
        None => { return None },
    };
    proof {
        if hyp {
            lemma_mat_bytes_len(track_times.deep_view(), n as int, n as int);
            assert(p2 as int == p1 + 21 * (n as int) * (n as int));
        }
    }
    let ghost e3: Option<Seq<Seq<u64>>> = if hyp {
        Some(pm0.travel_frequencies)
    } else {
        None
    };
    let (travel_frequencies, p3) = match read_matrix(s, p2, n, Ghost(e3)) {
        Some(x) => x,
        None => { return None },
    };
    proof {
        if hyp {
            lemma_mat_bytes_len(travel_frequencies.deep_view(), n as int, n as int);
            assert(p3 as int == p2 + 21 * (n as int) * (n as int));
        }
    }
    if p3 != s.len() {
        proof {
            if hyp {
                assert(false);
            }
        }
        return None;
    }
    let costs_ok = matrix_valid(&track_costs, n);
    let times_ok = matrix_valid(&track_times, n);
    let freqs_ok = matrix_valid(&travel_frequencies, n);
    proof {
        if hyp {
            lemma_mat_bytes_injective(
                track_costs.deep_view(),
                pm0.track_costs,
                n as int,
                n as int,
            );
            assert(track_costs.deep_view() =~~= pm0.track_costs);
            lemma_mat_bytes_injective(
                track_times.deep_view(),
                pm0.track_times,
                n as int,
                n as int,
            );
            assert(track_times.deep_view() =~~= pm0.track_times);
            lemma_mat_bytes_injective(
                travel_frequencies.deep_view(),
                pm0.travel_frequencies,
                n as int,
                n as int,
            );
            assert(travel_frequencies.deep_view() =~~= pm0.travel_frequencies);
        }
    }
    if !costs_ok || !times_ok || !freqs_ok {
        proof {
            if hyp {
                assert(false);
            }
        }
        return None;
    }
    let q = Problem { n, track_costs, track_times, travel_frequencies, train_price, total_budget };
    proof {
        assert(s@.subrange(0, 21) == word_bytes(q.n as u64));
        assert(s@ =~= s@.subrange(0, 21) + s@.subrange(21, 42) + s@.subrange(42, 63) + s@.subrange(
            63,
            p1 as int,
        ) + s@.subrange(p1 as int, p2 as int) + s@.subrange(p2 as int, p3 as int));
        assert(s@ == encode_spec(q.model()));
    }
    Some(q)
}

/// A load can only return the description that was saved: two descriptions
/// with the same serialized form are the same description. Together with the
/// loader's contract — a successful load returns a description whose
/// serialization is the input — saving and then loading a valid description
/// can only reproduce it exactly.
pub proof fn lemma_save_load_exact(a: ProblemModel, b: ProblemModel)
    requires
        model_wf(a),
        model_wf(b),
        encode_spec(a) == encode_spec(b),
    ensures
        a == b,
{
    lemma_encode_parts(a);
    lemma_encode_parts(b);
    lemma_word_at(encode_spec(a), encode_spec(b), 0, a.n as u64, b.n as u64);
    lemma_word_at(encode_spec(a), encode_spec(b), 21, a.train_price, b.train_price);
    lemma_word_at(encode_spec(a), encode_spec(b), 42, a.total_budget, b.total_budget);
    assert(a.n == b.n);
    let n = a.n as int;
    lemma_mat_bytes_len(a.track_costs, n, n);
    lemma_mat_bytes_len(b.track_costs, n, n);
    lemma_mat_bytes_len(a.track_times, n, n);
    lemma_mat_bytes_len(b.track_times, n, n);
    lemma_mat_bytes_len(a.travel_frequencies, n, n);
    lemma_mat_bytes_len(b.travel_frequencies, n, n);
    let sa = encode_spec(a);
    let costs_lo = 63;
    let costs_hi = 63 + 21 * n * n;
    let times_hi = costs_hi + 21 * n * n;
    let freqs_hi = times_hi + 21 * n * n;
    assert(sa.subrange(costs_lo, costs_hi) == mat_bytes_upto(a.track_costs, n));
    assert(sa.subrange(costs_lo, costs_hi) == mat_bytes_upto(b.track_costs, n));
    assert(sa.subrange(costs_hi, times_hi) == mat_bytes_upto(a.track_times, n));
    assert(sa.subrange(costs_hi, times_hi) == mat_bytes_upto(b.track_times, n));
    assert(sa.subrange(times_hi, freqs_hi) == mat_bytes_upto(a.travel_frequencies, n));
    assert(sa.subrange(times_hi, freqs_hi) == mat_bytes_upto(b.travel_frequencies, n));
    lemma_mat_bytes_injective(a.track_costs, b.track_costs, n, n);
    lemma_mat_bytes_injective(a.track_times, b.track_times, n, n);
    lemma_mat_bytes_injective(a.travel_frequencies, b.travel_frequencies, n, n);
    assert(a.track_costs =~~= b.track_costs);
    assert(a.track_times =~~= b.track_times);
    assert(a.travel_frequencies =~~= b.travel_frequencies);
}

/// The serialized form of a model splits at fixed offsets into its parts.
proof fn lemma_encode_parts(pm: ProblemModel)
    requires
        model_wf(pm),
    ensures
        encode_spec(pm).subrange(0, 21) == word_bytes(pm.n as u64),
        encode_spec(pm).subrange(21, 42) == word_bytes(pm.train_price),
        encode_spec(pm).subrange(42, 63) == word_bytes(pm.total_budget),
        encode_spec(pm).len() == 63 + 3 * (21 * (pm.n as int) * (pm.n as int)),
        encode_spec(pm).subrange(63, 63 + 21 * (pm.n as int) * (pm.n as int)) == mat_bytes_upto(
            pm.track_costs,
            pm.n as int,
        ),
        encode_spec(pm).subrange(
            63 + 21 * (pm.n as int) * (pm.n as int),
            63 + 2 * (21 * (pm.n as int) * (pm.n as int)),
        ) == mat_bytes_upto(pm.track_times, pm.n as int),
        encode_spec(pm).subrange(
            63 + 2 * (21 * (pm.n as int) * (pm.n as int)),
            63 + 3 * (21 * (pm.n as int) * (pm.n as int)),
        ) == mat_bytes_upto(pm.travel_frequencies, pm.n as int),
{
    let n = pm.n as int;
    lemma_mat_bytes_len(pm.track_costs, n, n);
    lemma_mat_bytes_len(pm.track_times, n, n);
    lemma_mat_bytes_len(pm.travel_frequencies, n, n);
    assert(word_bytes(pm.n as u64).len() == 21);
    assert(encode_spec(pm).subrange(0, 21) =~= word_bytes(pm.n as u64));
    assert(encode_spec(pm).subrange(21, 42) =~= word_bytes(pm.train_price));
    assert(encode_spec(pm).subrange(42, 63) =~= word_bytes(pm.total_budget));
    assert(encode_spec(pm).subrange(63, 63 + 21 * n * n) =~= mat_bytes_upto(pm.track_costs, n));
    assert(encode_spec(pm).subrange(63 + 21 * n * n, 63 + 2 * (21 * n * n)) =~= mat_bytes_upto(
        pm.track_times,
        n,
    ));
    assert(encode_spec(pm).subrange(63 + 2 * (21 * n * n), 63 + 3 * (21 * n * n))
        =~= mat_bytes_upto(pm.travel_frequencies, n));
}

/// Equal byte sequences carry equal numbers at equal word offsets.
proof fn lemma_word_at(s1: Seq<u8>, s2: Seq<u8>, off: int, v1: u64, v2: u64)
    requires
        s1 == s2,
        0 <= off,
        off + 21 <= s1.len(),
        s1.subrange(off, off + 21) == word_bytes(v1),
        s2.subrange(off, off + 21) == word_bytes(v2),
    ensures
        v1 == v2,
{
    assert(word_bytes(v1) == word_bytes(v2));
    assert(digits20(v1) =~= digits20(v2)) by {
        assert forall|i: int| 0 <= i < 20 implies digits20(v1)[i] == digits20(v2)[i] by {
            assert(digits20(v1)[i] == word_bytes(v1)[i]);
            assert(digits20(v2)[i] == word_bytes(v2)[i]);
        }
    }
    lemma_digits20_injective(v1, v2);
}

/// The serialized form of `i` rows of `rl` entries each takes `21 * rl * i`
/// bytes.
proof fn lemma_mat_bytes_len(m: Seq<Seq<u64>>, rl: int, i: int)
    requires
        0 <= i,
        0 <= rl,
        forall|k: int| 0 <= k < i ==> (#[trigger] m[k]).len() == rl,
    ensures
        mat_bytes_upto(m, i).len() == 21 * rl * i,
    decreases i,
{
    if i > 0 {
        lemma_mat_bytes_len(m, rl, i - 1);
        lemma_row_bytes_len(m[i - 1], rl);
        assert(21 * rl * i == 21 * rl * (i - 1) + 21 * rl) by (nonlinear_arith);
    } else {
        assert(21 * rl * 0 == 0) by (nonlinear_arith);
    }
}

/// The serialized form of `j` row entries takes `21 * j` bytes.
proof fn lemma_row_bytes_len(row: Seq<u64>, j: int)
    requires
        0 <= j,
    ensures
        row_bytes_upto(row, j).len() == 21 * j,
    decreases j,
{
    if j > 0 {
        lemma_row_bytes_len(row, j - 1);
    }
}

/// Rows of equal length with the same serialized form are equal entry for
/// entry.
proof fn lemma_row_bytes_injective(r1: Seq<u64>, r2: Seq<u64>, j: int)
    requires
        0 <= j,
        row_bytes_upto(r1, j) == row_bytes_upto(r2, j),
    ensures
        forall|k: int| 0 <= k < j ==> r1[k] == r2[k],
    decreases j,
{
    if j > 0 {
        lemma_row_bytes_len(r1, j - 1);
        lemma_row_bytes_len(r2, j - 1);
        let a = row_bytes_upto(r1, j);
        assert(row_bytes_upto(r1, j - 1) =~= a.subrange(0, 21 * (j - 1)));
        assert(row_bytes_upto(r2, j - 1) =~= a.subrange(0, 21 * (j - 1)));
        lemma_row_bytes_injective(r1, r2, j - 1);
        assert(word_bytes(r1[j - 1]) =~= a.subrange(21 * (j - 1), 21 * j));
        assert(word_bytes(r2[j - 1]) =~= a.subrange(21 * (j - 1), 21 * j));
        lemma_word_at(a, a, 21 * (j - 1), r1[j - 1], r2[j - 1]);
    }
}

/// Matrices of equal row lengths with the same serialized form are equal
/// entry for entry.
proof fn lemma_mat_bytes_injective(m1: Seq<Seq<u64>>, m2: Seq<Seq<u64>>, rl: int, i: int)
    requires
        0 <= i,
        0 <= rl,
        forall|k: int| 0 <= k < i ==> (#[trigger] m1[k]).len() == rl,
        forall|k: int| 0 <= k < i ==> (#[trigger] m2[k]).len() == rl,
        mat_bytes_upto(m1, i) == mat_bytes_upto(m2, i),
    ensures
        forall|k: int| 0 <= k < i ==> m1[k] =~= m2[k],
    decreases i,
{
    if i > 0 {
        lemma_mat_bytes_len(m1, rl, i - 1);
        lemma_mat_bytes_len(m2, rl, i - 1);
        lemma_mat_bytes_len(m1, rl, i);
        lemma_mat_bytes_len(m2, rl, i);
        lemma_row_bytes_len(m1[i - 1], rl);
        lemma_row_bytes_len(m2[i - 1], rl);
        assert(21 * rl * i == 21 * rl * (i - 1) + 21 * rl) by (nonlinear_arith);
        let a = mat_bytes_upto(m1, i);
        assert(mat_bytes_upto(m1, i - 1) =~= a.subrange(0, 21 * rl * (i - 1)));
        assert(mat_bytes_upto(m2, i - 1) =~= a.subrange(0, 21 * rl * (i - 1)));
        lemma_mat_bytes_injective(m1, m2, rl, i - 1);
        assert(row_bytes_upto(m1[i - 1], rl) =~= a.subrange(21 * rl * (i - 1), 21 * rl * i));
        assert(row_bytes_upto(m2[i - 1], rl) =~= a.subrange(21 * rl * (i - 1), 21 * rl * i));
        lemma_row_bytes_injective(m1[i - 1], m2[i - 1], rl);
        assert forall|k: int| 0 <= k < i implies m1[k] =~= m2[k] by {
            if k == i - 1 {
                assert(m1[k].len() == rl && m2[k].len() == rl);
            }
        }
    }
}

} // verus!
