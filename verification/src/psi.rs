//! Words over {1, 2, 3, 4} and the power-series coefficients they select.
use crate::complex::{complex_one, ComplexDyadic};
use crate::dyadic::{dyadic_zero, Dyadic};
use crate::interval::{mid_ok, psi, rect, Interval};
use rand::Rng;
use vstd::prelude::*;

verus! {

/// One letter drawn uniformly from {1, 2, 3, 4} with rand's thread-local
/// generator (`thread_rng().gen_range(1..5)`). rand documents a value in the
/// half-open range; what it is depends on chance. `thread_rng` panics only when
/// the operating system cannot seed it.
#[verifier::external_body]
fn random_letter() -> (r: u8)
    ensures
        1 <= r <= 4,
{
    rand::thread_rng().gen_range(1..5)
}

/// `x` is a letter that a draw of `random_letter` gave: a value it returned.
pub closed spec fn is_drawn_letter(x: u8) -> bool {
    call_ensures(random_letter, (), x)
}

/// A word of `length` letters, each drawn at random from {1, 2, 3, 4}: every
/// letter is what one draw of `random_letter` gave.
pub fn generate_word(length: i32) -> (word: Vec<u8>)
    requires
        length >= 0,
    ensures
        word@.len() == length,
        forall|i: int| 0 <= i < word@.len() ==> 1 <= #[trigger] word@[i] <= 4,
        forall|i: int| 0 <= i < word@.len() ==> is_drawn_letter(#[trigger] word@[i]),
{
    // Called through its value, so that each letter is known to be an outcome of it.
    let draw = random_letter;
    let mut word: Vec<u8> = Vec::with_capacity(length as usize);
    let mut i: i32 = 0;
    while i < length
        invariant
            0 <= i <= length,
            word@.len() == i,
            forall|j: int| 0 <= j < word@.len() ==> 1 <= #[trigger] word@[j] <= 4,
            forall|j: int| 0 <= j < word@.len() ==> is_drawn_letter(#[trigger] word@[j]),
            draw == random_letter,
        decreases length - i,
    {
        let letter = draw();
        word.push(letter);
        i = i + 1;
    }
    word
}

/// `4^n`.
pub open spec fn pow4(n: nat) -> nat
    decreases n,
{
    if n == 0 {
        1
    } else {
        4 * pow4((n - 1) as nat)
    }
}

/// The `i`-th word of length `n` in lexicographic order: the base-4 digits of
/// `i`, most significant first, each plus one.
pub open spec fn word_at(i: int, n: nat) -> Seq<u8>
    decreases n,
{
    if n == 0 {
        Seq::empty()
    } else {
        word_at(i / 4, (n - 1) as nat).push(((i % 4) + 1) as u8)
    }
}

/// All `4^length` words of the given length over {1, 2, 3, 4}, in lexicographic order.
pub fn generate_all_words(length: usize) -> (words: Vec<Vec<u8>>)
    requires
        pow4(length as nat) <= usize::MAX,
    ensures
        words@.len() == pow4(length as nat),
        forall|i: int| 0 <= i < words@.len() ==> #[trigger] words@[i]@ == word_at(i, length as nat),
    decreases length,
{
    if length == 0 {
        let mut result: Vec<Vec<u8>> = Vec::new();
        result.push(Vec::new());
        assert(result@[0]@ =~= word_at(0, 0));
        return result;
    }
    let smaller_vectors = generate_all_words(length - 1);
    let ghost n1 = (length - 1) as nat;
    let mut result: Vec<Vec<u8>> = Vec::with_capacity(smaller_vectors.len() * 4);
    let mut a: usize = 0;
    while a < smaller_vectors.len()
        invariant
            a <= smaller_vectors@.len(),
            smaller_vectors@.len() == pow4(n1),
            4 * pow4(n1) <= usize::MAX,
            n1 + 1 == length,
            result@.len() == 4 * a,
            forall|i: int|
                0 <= i < smaller_vectors@.len() ==> #[trigger] smaller_vectors@[i]@ == word_at(i, n1),
            forall|i: int| 0 <= i < result@.len() ==> #[trigger] result@[i]@ == word_at(i, length as nat),
        decreases smaller_vectors@.len() - a,
    {
        let mut val: u8 = 1;
        while val <= 4
            invariant
                1 <= val <= 5,
                a < smaller_vectors@.len(),
                smaller_vectors@.len() == pow4(n1),
                4 * pow4(n1) <= usize::MAX,
                n1 + 1 == length,
                result@.len() == 4 * a + val - 1,
                smaller_vectors@[a as int]@ == word_at(a as int, n1),
                forall|i: int|
                    0 <= i < result@.len() ==> #[trigger] result@[i]@ == word_at(i, length as nat),
            decreases 5 - val,
        {
            let mut new_vec = smaller_vectors[a].clone();
            new_vec.push(val);
            proof {
                let idx = 4 * a + val - 1;
                assert(idx / 4 == a);
                assert(idx % 4 + 1 == val);
                assert(new_vec@ =~= word_at(idx, length as nat));
            }
            result.push(new_vec);
            val = val + 1;
        }
        a = a + 1;
    }
    result
}

/// The letters of `word` at the positions `i < k` where `t[i] == n`, in order.
pub open spec fn selected_upto(n: int, t: Seq<usize>, word: Seq<u8>, k: int) -> Seq<u8>
    decreases k,
{
    if k <= 0 {
        Seq::empty()
    } else if t[k - 1] == n {
        selected_upto(n, t, word, k - 1).push(word[k - 1])
    } else {
        selected_upto(n, t, word, k - 1)
    }
}

/// The letters of `word` at the positions where `t` holds `n` (over the
/// positions both sequences have).
pub open spec fn selected(n: int, t: Seq<usize>, word: Seq<u8>) -> Seq<u8> {
    let k = if t.len() <= word.len() {
        t.len()
    } else {
        word.len()
    };
    selected_upto(n, t, word, k as int)
}

/// The letters of `vec2` at the positions where `vec1` holds `n`.
pub fn select_matching(n: usize, vec1: &Vec<usize>, vec2: &Vec<u8>) -> (output: Vec<u8>)
    ensures
        output@ == selected(n as int, vec1@, vec2@),
{
    let mut output: Vec<u8> = Vec::new();
    let k = if vec1.len() <= vec2.len() {
        vec1.len()
    } else {
        vec2.len()
    };
    let mut i: usize = 0;
    while i < k
        invariant
            i <= k,
            k <= vec1@.len(),
            k <= vec2@.len(),
            k == (if vec1@.len() <= vec2@.len() {
                vec1@.len()
            } else {
                vec2@.len()
            }),
            output@ == selected_upto(n as int, vec1@, vec2@, i as int),
        decreases k - i,
    {
        if vec1[i] == n {
            output.push(vec2[i]);
        }
        i = i + 1;
    }
    output
}

/// `-m`, as `m * (-1)`.
pub open spec fn negated(m: Dyadic) -> Dyadic {
    m.product(Dyadic { numerator: -1i128, exponent: 0 })
}

/// The square `[-m_n, m_n]^2` subdivided by the letters of `word` that `t_seq` assigns to step `n`.
pub open spec fn coefficient_box(m: Seq<Dyadic>, t: Seq<usize>, word: Seq<u8>, n: int) -> Interval {
    rect(negated(m[n]), m[n], negated(m[n]), m[n]).subdivided(selected(n, t, word))
}

/// Everything `psi_infinity` computes for step `n` stays within `i128`/`i32`,
/// and the box it ends with is not empty.
pub open spec fn coefficient_ok(m: Seq<Dyadic>, t: Seq<usize>, word: Seq<u8>, n: int) -> bool {
    &&& m[n].mul_ok(Dyadic { numerator: -1i128, exponent: 0 })
    &&& rect(negated(m[n]), m[n], negated(m[n]), m[n]).subdivision_ok(selected(n, t, word))
    &&& coefficient_box(m, t, word, n) is Bounded
    &&& coefficient_box(m, t, word, n).midpoint_ok()
}

/// The centre of a non-empty box.
pub open spec fn centre(b: Interval) -> ComplexDyadic {
    match b {
        Interval::Bounded(xl, xu, yl, yu) => ComplexDyadic {
            re: xl.sum(xu).product(crate::dyadic::dyadic_half()),
            im: yl.sum(yu).product(crate::dyadic::dyadic_half()),
        },
        Interval::Empty => ComplexDyadic { re: dyadic_zero(), im: dyadic_zero() },
    }
}

/// The coefficients of `f'` that the word selects: `1`, then for each bound
/// `m_n` the centre of the square `[-m_n, m_n]^2` subdivided by the letters
/// that `t_seq` assigns to step `n`.
pub fn psi_infinity(m_seq: &Vec<Dyadic>, t_seq: &Vec<usize>, word: &Vec<u8>) -> (out: Vec<ComplexDyadic>)
    requires
        forall|n: int| 0 <= n < m_seq@.len() ==> #[trigger] coefficient_ok(m_seq@, t_seq@, word@, n),
    ensures
        out@.len() == m_seq@.len() + 1,
        out@[0] == complex_one(),
        forall|n: int|
            0 <= n < m_seq@.len() ==> out@[n + 1] == #[trigger] centre(coefficient_box(m_seq@, t_seq@, word@, n)),
{
    let mut out: Vec<ComplexDyadic> = Vec::new();
    out.push(ComplexDyadic::new(Dyadic::new(1, 0), Dyadic::new(0, 0)));
    let mut n: usize = 0;
    while n < m_seq.len()
        invariant
            n <= m_seq@.len(),
            out@.len() == n + 1,
            out@[0] == complex_one(),
            forall|k: int| 0 <= k < m_seq@.len() ==> #[trigger] coefficient_ok(m_seq@, t_seq@, word@, k),
            forall|k: int|
                0 <= k < n ==> out@[k + 1] == #[trigger] centre(coefficient_box(m_seq@, t_seq@, word@, k)),
        decreases m_seq@.len() - n,
    {
        assert(coefficient_ok(m_seq@, t_seq@, word@, n as int));
        let word_on_step = select_matching(n, t_seq, word);
        let interval1 = Interval::new(
            m_seq[n] * Dyadic::new(-1, 0),
            m_seq[n],
            m_seq[n] * Dyadic::new(-1, 0),
            m_seq[n],
        );
        let interval2 = psi(interval1, word_on_step.as_slice());
        let mid = interval2.midpoint();
        match mid {
            Some(x) => out.push(x),
            None => {
                assert(false);
            },
        }
        n = n + 1;
    }
    out
}

/// `b.midpoint_ok()`, decided.
fn midpoint_fits(b: Interval) -> (r: bool)
    ensures
        r == b.midpoint_ok(),
{
    match b {
        Interval::Empty => true,
        Interval::Bounded(xl, xu, yl, yu) => {
            let half = Dyadic::new(1, -1);
            if !crate::checked::add_fits(xl, xu) || !crate::checked::add_fits(yl, yu) {
                return false;
            }
            crate::checked::mul_fits(xl + xu, half) && crate::checked::mul_fits(yl + yu, half)
        },
    }
}

/// `psi` where every subdivision can be computed, and `None` where one cannot.
pub fn try_psi(int1: Interval, word: &[u8]) -> (r: Option<Interval>)
    ensures
        r is Some <==> int1.subdivision_ok(word@),
        r matches Some(x) ==> x == int1.subdivided(word@),
{
    let mut cur = int1;
    let mut i: usize = 0;
    proof {
        assert(word@.skip(0) =~= word@);
    }
    while i < word.len()
        invariant
            i <= word@.len(),
            cur.subdivided(word@.skip(i as int)) == int1.subdivided(word@),
            cur.subdivision_ok(word@.skip(i as int)) == int1.subdivision_ok(word@),
        decreases word@.len() - i,
    {
        proof {
            let rest = word@.skip(i as int);
            assert(rest[0] == word@[i as int]);
            assert(rest.drop_first() =~= word@.skip(i + 1));
        }
        if !midpoint_fits(cur) {
            return None;
        }
        cur = crate::interval::split(cur, word[i]);
        i = i + 1;
    }
    proof {
        assert(word@.skip(i as int).len() == 0);
    }
    Some(cur)
}

/// `psi_infinity` where every coefficient can be computed, and `None` where
/// some cannot (an overflow, or an empty box).
pub fn try_psi_infinity(m_seq: &Vec<Dyadic>, t_seq: &Vec<usize>, word: &Vec<u8>) -> (r: Option<Vec<ComplexDyadic>>)
    ensures
        r is Some <==> forall|n: int| 0 <= n < m_seq@.len() ==> #[trigger] coefficient_ok(m_seq@, t_seq@, word@, n),
        r matches Some(out) ==> {
            &&& out@.len() == m_seq@.len() + 1
            &&& out@[0] == complex_one()
            &&& forall|n: int|
                0 <= n < m_seq@.len() ==> out@[n + 1] == #[trigger] centre(coefficient_box(m_seq@, t_seq@, word@, n))
        },
{
    let mut n: usize = 0;
    while n < m_seq.len()
        invariant
            n <= m_seq@.len(),
            forall|k: int| 0 <= k < n ==> #[trigger] coefficient_ok(m_seq@, t_seq@, word@, k),
        decreases m_seq@.len() - n,
    {
        let minus_one = Dyadic::new(-1, 0);
        if !crate::checked::mul_fits(m_seq[n], minus_one) {
            assert(!coefficient_ok(m_seq@, t_seq@, word@, n as int));
            return None;
        }
        let neg = m_seq[n] * minus_one;
        let word_on_step = select_matching(n, t_seq, word);
        let interval1 = Interval::new(neg, m_seq[n], neg, m_seq[n]);
        match try_psi(interval1, word_on_step.as_slice()) {
            None => {
                assert(interval1 == rect(negated(m_seq@[n as int]), m_seq@[n as int], negated(m_seq@[n as int]), m_seq@[n as int]));
                assert(!coefficient_ok(m_seq@, t_seq@, word@, n as int));
                return None;
            },
            Some(Interval::Empty) => {
                assert(interval1 == rect(negated(m_seq@[n as int]), m_seq@[n as int], negated(m_seq@[n as int]), m_seq@[n as int]));
                assert(!coefficient_ok(m_seq@, t_seq@, word@, n as int));
                return None;
            },
            Some(b) => {
                assert(interval1 == rect(negated(m_seq@[n as int]), m_seq@[n as int], negated(m_seq@[n as int]), m_seq@[n as int]));
                if !midpoint_fits(b) {
                    assert(!coefficient_ok(m_seq@, t_seq@, word@, n as int));
                    return None;
                }
            },
        }
        assert(coefficient_ok(m_seq@, t_seq@, word@, n as int));
        n = n + 1;
    }
    Some(psi_infinity(m_seq, t_seq, word))
}

/// The sequence `0, 1, 0, 1, 2, 0, 1, 2, 3, ...`: for `k = 1, 2, ...` the run
/// `0, 1, ..., k`; `t_blocks(b)` is the first `b` runs.
pub open spec fn t_blocks(b: nat) -> Seq<usize>
    decreases b,
{
    if b == 0 {
        Seq::empty()
    } else {
        t_blocks((b - 1) as nat) + Seq::new(b + 1, |j: int| j as usize)
    }
}


/// The `i`-th entry of `0, 1, 0, 1, 2, 0, 1, 2, 3, ...`.
pub open spec fn t_entry(i: int) -> usize {
    t_blocks((i + 1) as nat)[i]
}

proof fn lemma_t_blocks_len(b: nat)
    ensures
        t_blocks(b).len() >= 2 * b,
    decreases b,
{
    if b > 0 {
        lemma_t_blocks_len((b - 1) as nat);
    }
}

/// Fewer runs give a prefix of more runs.
proof fn lemma_t_blocks_prefix(a: nat, b: nat, i: int)
    requires
        a <= b,
        0 <= i < t_blocks(a).len(),
    ensures
        t_blocks(b).len() >= t_blocks(a).len(),
        t_blocks(b)[i] == t_blocks(a)[i],
    decreases b,
{
    if a < b {
        lemma_t_blocks_prefix(a, (b - 1) as nat, i);
    }
}

/// The first `len` entries of `0, 1, 0, 1, 2, 0, 1, 2, 3, ...`.
pub fn t_vector(len: usize) -> (r: Vec<usize>)
    ensures
        r@.len() == len,
        forall|i: int| 0 <= i < len ==> r@[i] == #[trigger] t_entry(i),
{
    let mut out: Vec<usize> = Vec::new();
    let mut k: usize = 1;
    let mut j: usize = 0;
    while out.len() < len
        invariant
            1 <= k,
            j <= k,
            out@.len() <= len,
            out@ == t_blocks((k - 1) as nat) + Seq::new(j as nat, |x: int| x as usize),
        decreases len - out@.len(),
    {
        proof {
            lemma_t_blocks_len((k - 1) as nat);
        }
        out.push(j);
        proof {
            assert(out@ == t_blocks((k - 1) as nat) + Seq::new((j + 1) as nat, |x: int| x as usize));
        }
        if j == k {
            proof {
                assert(out@ =~= t_blocks(k as nat));
            }
            k = k + 1;
            j = 0;
            proof {
                assert(out@ =~= t_blocks((k - 1) as nat) + Seq::new(j as nat, |x: int| x as usize));
            }
        } else {
            j = j + 1;
        }
    }
    proof {
        assert forall|i: int| 0 <= i < len implies out@[i] == #[trigger] t_entry(i) by {
            // `out` is a prefix of the first `k` runs, and so is the first `i + 1` runs'.
            assert(out@[i] == t_blocks(k as nat)[i]) by {
                if i < t_blocks((k - 1) as nat).len() {
                    lemma_t_blocks_prefix((k - 1) as nat, k as nat, i);
                }
            }
            lemma_t_blocks_len((i + 1) as nat);
            lemma_t_blocks_len(k as nat);
            if k <= i + 1 {
                lemma_t_blocks_prefix(k as nat, (i + 1) as nat, i);
            } else {
                lemma_t_blocks_prefix((i + 1) as nat, k as nat, i);
            }
        }
    }
    out
}


/// Every coefficient that `psi_infinity` gives after the first has real and
/// imaginary parts bounded by `m_n`: `-m_n <= Re, Im <= m_n`.
pub proof fn law_coefficients_bounded(m: Seq<Dyadic>, t: Seq<usize>, word: Seq<u8>, n: int)
    requires
        0 <= n < m.len(),
        coefficient_ok(m, t, word, n),
    ensures
        -m[n].val() <= centre(coefficient_box(m, t, word, n)).re.val() <= m[n].val(),
        -m[n].val() <= centre(coefficient_box(m, t, word, n)).im.val() <= m[n].val(),
{
    let minus_one = Dyadic { numerator: -1i128, exponent: 0 };
    crate::dyadic_laws::lemma_product_val(m[n], minus_one);
    crate::arith::lemma_p2_basics(0 - i32::MIN);
    let u = crate::dyadic_laws::unit();
    assert(minus_one.val() == -u);
    let neg = negated(m[n]);
    assert(neg.val() == -m[n].val()) by (nonlinear_arith)
        requires
            neg.val() * u == m[n].val() * -u,
            u > 0,
    ;
    let b = rect(neg, m[n], neg, m[n]);
    let sel = selected(n, t, word);
    crate::interval::lemma_empty_subdivided(sel);
    assert(b is Bounded);
    crate::dyadic_laws::lemma_below_iff(m[n], neg);
    crate::interval::law_subdivided_within(b, sel);
    let c = coefficient_box(m, t, word, n);
    crate::interval::law_midpoint_within(c);
}

/// The number of positions `i < k` with `t[i] == n`.
pub open spec fn positions_of(n: int, t: Seq<usize>, k: int) -> nat
    decreases k,
{
    if k <= 0 {
        0
    } else {
        positions_of(n, t, k - 1) + if t[k - 1] == n {
            1nat
        } else {
            0nat
        }
    }
}

/// The letters selected up to `k` are as many as the positions of `n` before
/// `k`, and, taken from a word over {1, 2, 3, 4}, are letters of it.
proof fn lemma_selected_letters(n: int, t: Seq<usize>, word: Seq<u8>, k: int)
    requires
        0 <= k <= t.len(),
        k <= word.len(),
        forall|i: int| 0 <= i < word.len() ==> 1 <= #[trigger] word[i] <= 4,
    ensures
        selected_upto(n, t, word, k).len() == positions_of(n, t, k),
        forall|j: int|
            0 <= j < selected_upto(n, t, word, k).len() ==> 1 <= #[trigger] selected_upto(
                n,
                t,
                word,
                k,
            )[j] <= 4,
    decreases k,
{
    if k > 0 {
        lemma_selected_letters(n, t, word, k - 1);
        let prev = selected_upto(n, t, word, k - 1);
        let cur = selected_upto(n, t, word, k);
        assert forall|j: int| 0 <= j < cur.len() implies 1 <= #[trigger] cur[j] <= 4 by {
            if j < prev.len() {
                assert(cur[j] == prev[j]);
            } else {
                assert(cur[j] == word[k - 1]);
            }
        }
    }
}

/// The box of step `n` of a word over {1, 2, 3, 4} is the square
/// `[-m_n, m_n]^2` halved once in each direction for every position where
/// `t` holds `n`: its sides are `2 m_n / 2^c`, with `c` the number of those
/// positions among the first `min(|t|, |word|)`.
pub proof fn law_coefficient_box_sides(m: Seq<Dyadic>, t: Seq<usize>, word: Seq<u8>, n: int)
    requires
        0 <= n < m.len(),
        coefficient_ok(m, t, word, n),
        forall|i: int| 0 <= i < word.len() ==> 1 <= #[trigger] word[i] <= 4,
    ensures
        ({
            let k = if t.len() <= word.len() {
                t.len() as int
            } else {
                word.len() as int
            };
            let c = positions_of(n, t, k);
            match coefficient_box(m, t, word, n) {
                Interval::Bounded(a, b, lo, hi) => {
                    &&& crate::arith::p2(c as int) * (b.val() - a.val()) == 2 * m[n].val()
                    &&& crate::arith::p2(c as int) * (hi.val() - lo.val()) == 2 * m[n].val()
                },
                Interval::Empty => false,
            }
        }),
{
    let minus_one = Dyadic { numerator: -1i128, exponent: 0 };
    crate::dyadic_laws::lemma_product_val(m[n], minus_one);
    crate::arith::lemma_p2_basics(0 - i32::MIN);
    let u = crate::dyadic_laws::unit();
    assert(minus_one.val() == -u);
    let neg = negated(m[n]);
    assert(neg.val() == -m[n].val()) by (nonlinear_arith)
        requires
            neg.val() * u == m[n].val() * -u,
            u > 0,
    ;
    let b = rect(neg, m[n], neg, m[n]);
    let sel = selected(n, t, word);
    let k = if t.len() <= word.len() {
        t.len() as int
    } else {
        word.len() as int
    };
    crate::interval::lemma_empty_subdivided(sel);
    assert(b is Bounded);
    crate::dyadic_laws::lemma_below_iff(m[n], neg);
    lemma_selected_letters(n, t, word, k);
    crate::interval::law_subdivided_halves(b, sel);
}

/// The index of a word among the words of its length in lexicographic order:
/// its letters minus one, read as base-4 digits.
pub open spec fn word_index(w: Seq<u8>) -> int
    decreases w.len(),
{
    if w.len() == 0 {
        0
    } else {
        word_index(w.drop_last()) * 4 + (w.last() - 1)
    }
}

/// A word of length `n` over {1, 2, 3, 4}.
pub open spec fn is_word(w: Seq<u8>, n: nat) -> bool {
    w.len() == n && forall|k: int| 0 <= k < n ==> 1 <= #[trigger] w[k] <= 4
}

proof fn lemma_pow4_pos(n: nat)
    ensures
        pow4(n) >= 1,
    decreases n,
{
    if n > 0 {
        lemma_pow4_pos((n - 1) as nat);
    }
}

/// `word_at` and `word_index` undo each other.
proof fn lemma_word_index(w: Seq<u8>, i: int, n: nat)
    ensures
        is_word(w, n) ==> 0 <= word_index(w) < pow4(n) && word_at(word_index(w), n) == w,
        0 <= i < pow4(n) ==> is_word(word_at(i, n), n) && word_index(word_at(i, n)) == i,
    decreases n,
{
    if n > 0 {
        let n1 = (n - 1) as nat;
        lemma_word_index(w.drop_last(), i / 4, n1);
        if is_word(w, n) {
            let v = w.drop_last();
            assert(is_word(v, n1));
            let j = word_index(w);
            assert(w.last() == w[n - 1]);
            assert(j / 4 == word_index(v) && j % 4 == w.last() - 1) by {
                vstd::arithmetic::div_mod::lemma_fundamental_div_mod_converse(j, 4, word_index(v), w.last() - 1);
            }
            assert(word_at(j, n) =~= w);
        }
        if 0 <= i < pow4(n) {
            vstd::arithmetic::div_mod::lemma_fundamental_div_mod(i, 4);
            let wi = word_at(i, n);
            assert(0 <= i / 4 < pow4(n1));
            assert(wi.drop_last() =~= word_at(i / 4, n1));
            assert forall|k: int| 0 <= k < n implies 1 <= #[trigger] wi[k] <= 4 by {
                if k < n - 1 {
                    assert(wi[k] == word_at(i / 4, n1)[k]);
                }
            }
        }
    }
}

/// `generate_all_words(n)` lists every word of length `n` over {1, 2, 3, 4}
/// exactly once: its entries are such words, pairwise different, and every
/// such word is the entry at its index.
pub proof fn law_all_words_once(n: nat)
    ensures
        forall|i: int| 0 <= i < pow4(n) ==> is_word(#[trigger] word_at(i, n), n),
        forall|i: int, j: int| 0 <= i < j < pow4(n) ==> word_at(i, n) != word_at(j, n),
        forall|w: Seq<u8>| #[trigger] is_word(w, n) ==> 0 <= word_index(w) < pow4(n) && word_at(word_index(w), n) == w,
{
    assert forall|i: int| 0 <= i < pow4(n) implies is_word(#[trigger] word_at(i, n), n) by {
        lemma_word_index(Seq::empty(), i, n);
    }
    assert forall|i: int, j: int| 0 <= i < j < pow4(n) implies word_at(i, n) != word_at(j, n) by {
        lemma_word_index(Seq::empty(), i, n);
        lemma_word_index(Seq::empty(), j, n);
    }
    assert forall|w: Seq<u8>| #[trigger] is_word(w, n) implies 0 <= word_index(w) < pow4(n) && word_at(word_index(w), n) == w by {
        lemma_word_index(w, 0, n);
    }
}

} // verus!
