//! The equation solver: the balance matrix of a reaction, fraction-free
//! Gaussian elimination, and back-substitution to the smallest positive
//! integer coefficients.
use crate::chemical::{copy_symbol, get, lemma_counts_of_lookup, same_symbol, Chemical};
use crate::divisibility::{
    divides,
    gcd_spec,
    lcm_spec,
    lemma_common_divides_gcd,
    lemma_divides_elim,
    lemma_divides_intro,
    lemma_divides_le,
    lemma_divides_trans,
    lemma_gcd_divides,
    lemma_gcd_halve_both,
    lemma_gcd_halve_even,
    lemma_gcd_self,
    lemma_gcd_sub,
    lemma_gcd_sym,
};
use vstd::arithmetic::div_mod::{lemma_fundamental_div_mod, lemma_fundamental_div_mod_converse};
use vstd::math::abs;
use vstd::prelude::*;

verus! {

/// Why a reaction cannot be balanced.
#[derive(Debug, Clone, Copy, PartialEq, Eq, Structural)]
pub enum ReactionError {
    /// A product holds an element that no reagent holds.
    UnbalancedElements,
    /// There are too few elements to fix the coefficients up to a common factor.
    InfiniteSolution,
    /// Elimination met a zero operand or an overflow, or found no balancing solution.
    ArithmeticInvalid,
}

// ---------------------------------------------------------------------------
// Model
// ---------------------------------------------------------------------------

/// Symbol `k` occurs in one of the first `n` chemicals.
pub open spec fn occurs_before(chems: Seq<Chemical>, n: int, k: Seq<char>) -> bool {
    exists|a: int| 0 <= a < n && #[trigger] chems[a].counts().contains_key(k)
}

/// Symbol `k` occurs in one of the chemicals.
pub open spec fn occurs_in(chems: Seq<Chemical>, k: Seq<char>) -> bool {
    occurs_before(chems, chems.len() as int, k)
}

/// Every element of a product occurs in some reagent.
pub open spec fn elements_covered(reagents: Seq<Chemical>, products: Seq<Chemical>) -> bool {
    forall|k: Seq<char>| #[trigger] occurs_in(products, k) ==> occurs_in(reagents, k)
}

/// The elements of the reagents.
pub open spec fn reagent_elements(reagents: Seq<Chemical>) -> Set<Seq<char>> {
    Set::new(|k: Seq<char>| occurs_in(reagents, k))
}

/// The number of unknown coefficients.
pub open spec fn column_count(reagents: Seq<Chemical>, products: Seq<Chemical>) -> int {
    (reagents.len() + products.len()) as int
}

/// Atoms of `k` on one side: each chemical's count times its coefficient,
/// the coefficients read from the start of `coefs`.
pub open spec fn side_total(chems: Seq<Chemical>, coefs: Seq<i64>, k: Seq<char>) -> int
    decreases chems.len(),
{
    if chems.len() == 0 {
        0
    } else {
        side_total(chems.drop_last(), coefs, k) + coefs[chems.len() - 1] * get(
            chems.last().counts(),
            k,
        )
    }
}

/// With coefficients `v` (reagents first), every element has as many atoms on
/// each side.
pub open spec fn balances(reagents: Seq<Chemical>, products: Seq<Chemical>, v: Seq<i64>) -> bool {
    forall|k: Seq<char>|
        #[trigger] side_total(reagents, v, k) == side_total(products, v.skip(reagents.len() as int), k)
}

/// `d` divides every entry of `v`.
pub open spec fn divides_all(d: int, v: Seq<i64>) -> bool {
    forall|i: int| 0 <= i < v.len() ==> divides(d, #[trigger] v[i] as int)
}

/// No integer greater than one divides every entry of `v`.
pub open spec fn coprime_entries(v: Seq<i64>) -> bool {
    forall|d: int| d > 1 ==> !#[trigger] divides_all(d, v)
}

/// The entry of the balance matrix for element `k` and chemical `c`: its count
/// for a reagent, its negated count for a product.
pub open spec fn cell(reagents: Seq<Chemical>, products: Seq<Chemical>, k: Seq<char>, c: int) -> int {
    if c < reagents.len() {
        get(reagents[c].counts(), k) as int
    } else {
        -(get(products[c - reagents.len()].counts(), k) as int)
    }
}

/// Entry (`r`, `c`) of a row-major matrix with `cols` columns.
pub open spec fn at(m: Seq<i64>, cols: int, r: int, c: int) -> i64 {
    m[r * cols + c]
}

spec fn symbols(e: Seq<Vec<char>>) -> Seq<Seq<char>> {
    e.map_values(|x: Vec<char>| x@)
}

spec fn part_before(parts: Seq<(Vec<char>, u64)>, j: int, k: Seq<char>) -> bool {
    exists|b: int| 0 <= b < j && #[trigger] parts[b].0@ == k
}

spec fn all_wf(chems: Seq<Chemical>) -> bool {
    forall|i: int| 0 <= i < chems.len() ==> #[trigger] chems[i].wf()
}

proof fn lemma_cell_index(r: int, c: int, rows: int, cols: int)
    requires
        0 <= r < rows,
        0 <= c < cols,
    ensures
        0 <= r * cols + c < rows * cols,
        (r * cols + c) / cols == r,
        (r * cols + c) % cols == c,
{
    assert(0 <= r * cols + c < rows * cols) by (nonlinear_arith)
        requires
            0 <= r < rows,
            0 <= c < cols,
    ;
    lemma_fundamental_div_mod_converse(r * cols + c, cols, r, c);
}

// ---------------------------------------------------------------------------
// Integer arithmetic
// ---------------------------------------------------------------------------

/// Greatest common divisor of two positive numbers, by the binary method.
fn gcd(a0: i64, b0: i64) -> (g: i64)
    requires
        a0 > 0,
        b0 > 0,
    ensures
        g == gcd_spec(a0 as nat, b0 as nat),
{
    if a0 == b0 {
        proof {
            lemma_gcd_self(a0 as nat);
        }
        return a0;
    }
    let mut a = a0;
    let mut b = b0;
    let mut scale: i64 = 1;
    while a % 2 == 0 && b % 2 == 0
        invariant
            a0 > 0,
            b0 > 0,
            a > 0,
            b > 0,
            scale >= 1,
            scale * a == a0,
            gcd_spec(a0 as nat, b0 as nat) == scale * gcd_spec(a as nat, b as nat),
        decreases a,
    {
        proof {
            lemma_gcd_halve_both(a as nat, b as nat);
            let h = gcd_spec((a / 2) as nat, (b / 2) as nat);
            assert(scale * (2 * h) == (scale * 2) * h) by (nonlinear_arith);
        }
        assert(scale * 2 * (a / 2) == scale * a) by (nonlinear_arith)
            requires
                a % 2 == 0,
        ;
        assert(scale * 2 <= scale * a) by (nonlinear_arith)
            requires
                a % 2 == 0,
                a > 0,
                scale >= 1,
        ;
        a = a / 2;
        b = b / 2;
        scale = scale * 2;
    }
    while a % 2 == 0
        invariant
            a0 > 0,
            b0 > 0,
            a > 0,
            b > 0,
            b % 2 == 1 || a % 2 == 1,
            scale >= 1,
            scale * a <= a0,
            gcd_spec(a0 as nat, b0 as nat) == scale * gcd_spec(a as nat, b as nat),
        decreases a,
    {
        proof {
            lemma_gcd_halve_even(a as nat, b as nat);
        }
        assert(scale * (a / 2) <= scale * a) by (nonlinear_arith)
            requires
                a > 0,
                scale >= 1,
        ;
        a = a / 2;
    }
    while b != 0
        invariant
            a0 > 0,
            b0 > 0,
            a > 0,
            b >= 0,
            a % 2 == 1,
            scale >= 1,
            scale * a <= a0,
            gcd_spec(a0 as nat, b0 as nat) == scale * gcd_spec(a as nat, b as nat),
        decreases a + b,
    {
        let ghost b_entry = b;
        while b % 2 == 0
            invariant
                a0 > 0,
                b0 > 0,
                a > 0,
                b > 0,
                b <= b_entry,
                a % 2 == 1,
                gcd_spec(a0 as nat, b0 as nat) == scale * gcd_spec(a as nat, b as nat),
            decreases b,
        {
            proof {
                lemma_gcd_sym(a as nat, b as nat);
                lemma_gcd_halve_even(b as nat, a as nat);
                lemma_gcd_sym(a as nat, (b / 2) as nat);
            }
            b = b / 2;
        }
        if a > b {
            proof {
                lemma_gcd_sym(a as nat, b as nat);
            }
            assert(scale * b <= scale * a) by (nonlinear_arith)
                requires
                    a > b,
                    scale >= 1,
            ;
            let t = a;
            a = b;
            b = t;
        }
        proof {
            lemma_gcd_sub(a as nat, b as nat);
        }
        b = b - a;
    }
    assert(gcd_spec(a as nat, 0) == a);
    assert(a * scale == scale * a) by (nonlinear_arith);
    a * scale
}

/// Least common multiple; `ArithmeticInvalid` for an operand that is not
/// positive, or a result that does not fit.
fn lcm(a: i64, b: i64) -> (r: Result<i64, ReactionError>)
    ensures
        r matches Ok(l) ==> a > 0 && b > 0 && l >= 1 && l == lcm_spec(a as nat, b as nat) && divides(
            a as int,
            l as int,
        ) && divides(b as int, l as int),
        (a > 0 && b > 0 && lcm_spec(a as nat, b as nat) <= i64::MAX) <==> r is Ok,
        r is Err ==> r == Err::<i64, ReactionError>(ReactionError::ArithmeticInvalid),
{
    if a <= 0 || b <= 0 {
        return Err(ReactionError::ArithmeticInvalid);
    }
    let g = gcd(a, b);
    proof {
        lemma_gcd_divides(a as nat, b as nat);
        lemma_divides_elim(g as int, a as int);
        lemma_divides_elim(g as int, b as int);
    }
    let q = a / g;
    let ghost kb = b / g;
    proof {
        assert(a * b == g * (q * b)) by (nonlinear_arith)
            requires
                a == g * q,
        ;
        lemma_fundamental_div_mod_converse(a * b, g as int, q * b, 0);
        assert(q * b == a * kb) by (nonlinear_arith)
            requires
                a == g * q,
                b == g * kb,
        ;
        lemma_divides_intro(a as int, q * b, kb);
        assert(q * b == b * q) by (nonlinear_arith);
        assert(q * b >= 1) by (nonlinear_arith)
            requires
                a == g * q,
                a > 0,
                g > 0,
                b > 0,
        ;
        lemma_divides_intro(b as int, q * b, q as int);
    }
    match q.checked_mul(b) {
        Some(l) => Ok(l),
        None => Err(ReactionError::ArithmeticInvalid),
    }
}

// ---------------------------------------------------------------------------
// The balance matrix
// ---------------------------------------------------------------------------

/// The symbols of a list of entries, in order.
pub open spec fn keys_of(parts: Seq<(Vec<char>, u64)>) -> Seq<Seq<char>> {
    parts.map_values(|p: (Vec<char>, u64)| p.0@)
}

/// The symbols of the chemicals' entries, chemical after chemical.
pub open spec fn all_symbols(chems: Seq<Chemical>) -> Seq<Seq<char>>
    decreases chems.len(),
{
    if chems.len() == 0 {
        seq![]
    } else {
        all_symbols(chems.drop_last()) + keys_of(chems.last().parts@)
    }
}

/// Each symbol of `s` once, in order of first occurrence.
pub open spec fn first_occurrences(s: Seq<Seq<char>>) -> Seq<Seq<char>>
    decreases s.len(),
{
    if s.len() == 0 {
        seq![]
    } else {
        let d = first_occurrences(s.drop_last());
        if d.contains(s.last()) {
            d
        } else {
            d.push(s.last())
        }
    }
}

/// The rows of the balance matrix: the reagents' elements in order of first
/// occurrence.
pub open spec fn element_order(reagents: Seq<Chemical>) -> Seq<Seq<char>> {
    first_occurrences(all_symbols(reagents))
}

/// The position of `key` in `elements`, if it is there.
fn find_element(elements: &Vec<Vec<char>>, key: &Vec<char>) -> (r: Option<usize>)
    ensures
        r matches Some(i) ==> i < elements@.len() && elements@[i as int]@ == key@,
        r is None ==> !symbols(elements@).contains(key@),
{
    let mut i: usize = 0;
    while i < elements.len()
        invariant
            i <= elements@.len(),
            forall|j: int| 0 <= j < i ==> #[trigger] elements@[j]@ != key@,
        decreases elements.len() - i,
    {
        if same_symbol(&elements[i], key) {
            return Some(i);
        }
        i += 1;
    }
    assert forall|j: int| 0 <= j < symbols(elements@).len() implies symbols(elements@)[j]
        != key@ by {
        assert(elements@[j]@ != key@);
    }
    None
}

/// The distinct elements of the reagents, in order of first occurrence;
/// `UnbalancedElements` where a product holds an element that no reagent holds.
fn get_elements_involved(reagents: &[Chemical], products: &[Chemical]) -> (r: Result<
    Vec<Vec<char>>,
    ReactionError,
>)
    requires
        all_wf(reagents@),
        all_wf(products@),
    ensures
        r is Err <==> !elements_covered(reagents@, products@),
        r is Err ==> r == Err::<Vec<Vec<char>>, ReactionError>(ReactionError::UnbalancedElements),
        r matches Ok(e) ==> symbols(e@).no_duplicates() && symbols(e@).to_set() == reagent_elements(
            reagents@,
        ) && symbols(e@) == element_order(reagents@),
{
    let mut elements: Vec<Vec<char>> = Vec::new();
    let mut i: usize = 0;
    assert(reagents@.take(0) =~= Seq::<Chemical>::empty());
    assert(symbols(elements@) =~= Seq::<Seq<char>>::empty());
    while i < reagents.len()
        invariant
            symbols(elements@) == first_occurrences(all_symbols(reagents@.take(i as int))),
            i <= reagents@.len(),
            all_wf(reagents@),
            symbols(elements@).no_duplicates(),
            forall|t: int|
                0 <= t < elements@.len() ==> occurs_before(reagents@, i as int, #[trigger] elements@[t]@),
            forall|k: Seq<char>|
                occurs_before(reagents@, i as int, k) ==> #[trigger] symbols(elements@).contains(k),
        decreases reagents.len() - i,
    {
        let parts = &reagents[i].parts;
        assert(reagents@[i as int].wf());
        let ghost prefix = all_symbols(reagents@.take(i as int));
        let mut j: usize = 0;
        assert(keys_of(parts@.take(0)) =~= Seq::<Seq<char>>::empty());
        assert(prefix + keys_of(parts@.take(0)) =~= prefix);
        while j < parts.len()
            invariant
                symbols(elements@) == first_occurrences(prefix + keys_of(parts@.take(j as int))),
                prefix == all_symbols(reagents@.take(i as int)),
                i < reagents@.len(),
                parts == reagents@[i as int].parts,
                j <= parts@.len(),
                symbols(elements@).no_duplicates(),
                forall|t: int|
                    0 <= t < elements@.len() ==> occurs_before(reagents@, i as int, #[trigger] elements@[t]@)
                        || part_before(parts@, j as int, elements@[t]@),
                forall|k: Seq<char>|
                    occurs_before(reagents@, i as int, k) ==> #[trigger] symbols(elements@).contains(k),
                forall|b: int| 0 <= b < j ==> symbols(elements@).contains(#[trigger] parts@[b].0@),
            decreases parts.len() - j,
        {
            let ghost old_e = elements@;
            proof {
                let x = prefix + keys_of(parts@.take(j + 1));
                assert(x.drop_last() =~= prefix + keys_of(parts@.take(j as int)));
                assert(x.last() == parts@[j as int].0@);
            }
            if find_element(&elements, &parts[j].0).is_none() {
                let key = copy_symbol(&parts[j].0);
                elements.push(key);
                proof {
                    assert(symbols(elements@) =~= symbols(old_e).push(key@));
                    assert forall|t: int| 0 <= t < elements@.len() implies occurs_before(reagents@, i as int, #[trigger] elements@[t]@)
                        || part_before(parts@, j + 1, elements@[t]@) by {
                        if t < old_e.len() {
                            assert(elements@[t] == old_e[t]);
                        } else {
                            assert(parts@[j as int].0@ == elements@[t]@);
                        }
                    }
                    assert forall|k: Seq<char>| occurs_before(reagents@, i as int, k) implies #[trigger] symbols(elements@).contains(k) by {
                        assert(symbols(old_e).contains(k));
                        let t = choose|t: int| 0 <= t < symbols(old_e).len() && symbols(old_e)[t] == k;
                        assert(symbols(elements@)[t] == k);
                    }
                    assert forall|b: int| 0 <= b < j + 1 implies symbols(elements@).contains(#[trigger] parts@[b].0@) by {
                        if b < j {
                            let t = choose|t: int| 0 <= t < symbols(old_e).len() && symbols(old_e)[t] == parts@[b].0@;
                            assert(symbols(elements@)[t] == parts@[b].0@);
                        } else {
                            assert(symbols(elements@)[old_e.len() as int] == parts@[b].0@);
                        }
                    }
                }
            } else {
                proof {
                    assert forall|t: int| 0 <= t < elements@.len() implies occurs_before(reagents@, i as int, #[trigger] elements@[t]@)
                        || part_before(parts@, j + 1, elements@[t]@) by {
                        if part_before(parts@, j as int, elements@[t]@) {
                            let b = choose|b: int| 0 <= b < j && #[trigger] parts@[b].0@ == elements@[t]@;
                            assert(part_before(parts@, j + 1, elements@[t]@));
                        }
                    }
                }
            }
            j += 1;
        }
        proof {
            let ti = reagents@.take(i + 1);
            assert(ti.drop_last() =~= reagents@.take(i as int));
            assert(ti.last() == reagents@[i as int]);
            assert(parts@.take(parts@.len() as int) =~= parts@);
            assert(all_symbols(ti) == prefix + keys_of(parts@));
            assert forall|t: int| 0 <= t < elements@.len() implies occurs_before(reagents@, i + 1, #[trigger] elements@[t]@) by {
                if occurs_before(reagents@, i as int, elements@[t]@) {
                    let a = choose|a: int| 0 <= a < i && #[trigger] reagents@[a].counts().contains_key(elements@[t]@);
                    assert(occurs_before(reagents@, i + 1, elements@[t]@));
                } else {
                    let b = choose|b: int| 0 <= b < parts@.len() && #[trigger] parts@[b].0@ == elements@[t]@;
                    lemma_counts_of_lookup(parts@, elements@[t]@);
                    assert(reagents@[i as int].counts().contains_key(elements@[t]@));
                }
            }
            assert forall|k: Seq<char>| occurs_before(reagents@, i + 1, k) implies #[trigger] symbols(elements@).contains(k) by {
                let a = choose|a: int| 0 <= a < i + 1 && #[trigger] reagents@[a].counts().contains_key(k);
                if a < i {
                    assert(occurs_before(reagents@, i as int, k));
                } else {
                    lemma_counts_of_lookup(parts@, k);
                    let b = choose|b: int| 0 <= b < parts@.len() && #[trigger] parts@[b].0@ == k;
                    assert(symbols(elements@).contains(parts@[b].0@));
                }
            }
        }
        i += 1;
    }
    assert forall|t: int| 0 <= t < elements@.len() implies occurs_in(reagents@, #[trigger] elements@[t]@) by {
        assert(occurs_before(reagents@, i as int, elements@[t]@));
    }
    assert(reagents@.take(reagents@.len() as int) =~= reagents@);
    let ghost order = symbols(elements@);
    assert(order == element_order(reagents@));
    let mut i: usize = 0;
    while i < products.len()
        invariant
            i <= products@.len(),
            all_wf(products@),
            symbols(elements@) == element_order(reagents@),
            symbols(elements@).no_duplicates(),
            forall|t: int|
                0 <= t < elements@.len() ==> occurs_in(reagents@, #[trigger] elements@[t]@),
            forall|k: Seq<char>|
                occurs_in(reagents@, k) ==> #[trigger] symbols(elements@).contains(k),
            forall|k: Seq<char>|
                occurs_before(products@, i as int, k) ==> #[trigger] symbols(elements@).contains(k),
        decreases products.len() - i,
    {
        let parts = &products[i].parts;
        assert(products@[i as int].wf());
        let mut j: usize = 0;
        while j < parts.len()
            invariant
                i < products@.len(),
                all_wf(products@),
                forall|k: Seq<char>|
                    occurs_in(reagents@, k) ==> #[trigger] symbols(elements@).contains(k),
                parts == products@[i as int].parts,
                j <= parts@.len(),
                forall|k: Seq<char>|
                    occurs_before(products@, i as int, k) ==> #[trigger] symbols(elements@).contains(k),
                forall|b: int| 0 <= b < j ==> symbols(elements@).contains(#[trigger] parts@[b].0@),
            decreases parts.len() - j,
        {
            let found = find_element(&elements, &parts[j].0);
            if found.is_none() {
                proof {
                    let k = parts@[j as int].0@;
                    assert(products@[i as int].wf());
                    lemma_counts_of_lookup(parts@, k);
                    assert(products@[i as int].counts().contains_key(k));
                    assert(occurs_in(products@, k));
                    assert(!symbols(elements@).contains(k));
                    if occurs_in(reagents@, k) {
                        assert(symbols(elements@).contains(k));
                    }
                }
                return Err(ReactionError::UnbalancedElements);
            }
            proof {
                let idx = found->0;
                assert(symbols(elements@)[idx as int] == parts@[j as int].0@);
            }
            j += 1;
        }
        proof {
            assert forall|k: Seq<char>| occurs_before(products@, i + 1, k) implies #[trigger] symbols(elements@).contains(k) by {
                let a = choose|a: int| 0 <= a < i + 1 && #[trigger] products@[a].counts().contains_key(k);
                if a < i {
                    assert(occurs_before(products@, i as int, k));
                } else {
                    assert(products@[i as int].wf());
                    lemma_counts_of_lookup(parts@, k);
                    let b = choose|b: int| 0 <= b < parts@.len() && #[trigger] parts@[b].0@ == k;
                    assert(symbols(elements@).contains(parts@[b].0@));
                }
            }
        }
        i += 1;
    }
    proof {
        assert forall|k: Seq<char>| #[trigger] occurs_in(products@, k) implies occurs_in(reagents@, k) by {
            assert(symbols(elements@).contains(k));
        }
        assert forall|k: Seq<char>| #[trigger] symbols(elements@).to_set().contains(k) <==> reagent_elements(reagents@).contains(k) by {
            if symbols(elements@).contains(k) {
                let t = choose|t: int| 0 <= t < symbols(elements@).len() && symbols(elements@)[t] == k;
                assert(occurs_in(reagents@, elements@[t]@));
            }
        }
        assert(symbols(elements@).to_set() =~= reagent_elements(reagents@));
    }
    Ok(elements)
}

/// A row-major matrix of signed integers with `columns` columns.
struct ReactionMatrix {
    matrix: Vec<i64>,
    columns: usize,
}

/// The balance matrix: one row per element of `elements`, one column per
/// chemical, reagents first; `ArithmeticInvalid` where a count does not fit.
fn create_linear_equation(
    reagents: &[Chemical],
    products: &[Chemical],
    elements: &Vec<Vec<char>>,
) -> (r: Result<ReactionMatrix, ReactionError>)
    requires
        all_wf(reagents@),
        all_wf(products@),
        reagents@.len() + products@.len() <= usize::MAX,
    ensures
        r matches Ok(m) ==> {
            &&& m.columns == reagents@.len() + products@.len()
            &&& m.matrix@.len() == elements@.len() * m.columns
            &&& forall|row: int, c: int|
                0 <= row < elements@.len() && 0 <= c < m.columns ==> #[trigger] at(
                    m.matrix@,
                    m.columns as int,
                    row,
                    c,
                ) == cell(reagents@, products@, elements@[row]@, c)
        },
        r is Err ==> r == Err::<ReactionMatrix, ReactionError>(ReactionError::ArithmeticInvalid),
        r is Err <==> exists|row: int, c: int|
            0 <= row < elements@.len() && 0 <= c < reagents@.len() + products@.len() && abs(
                #[trigger] cell(reagents@, products@, elements@[row]@, c),
            ) > i64::MAX,
{
    let columns = reagents.len() + products.len();
    let mut matrix: Vec<i64> = Vec::new();
    let mut row: usize = 0;
    while row < elements.len()
        invariant
            columns == reagents@.len() + products@.len(),
            all_wf(reagents@),
            all_wf(products@),
            row <= elements@.len(),
            matrix@.len() == row * columns,
            forall|rr: int, c: int|
                0 <= rr < row && 0 <= c < columns ==> abs(#[trigger] cell(reagents@, products@, elements@[rr]@, c)) <= i64::MAX,
            forall|rr: int, c: int|
                0 <= rr < row && 0 <= c < columns ==> #[trigger] at(matrix@, columns as int, rr, c)
                    == cell(reagents@, products@, elements@[rr]@, c),
        decreases elements.len() - row,
    {
        let mut c: usize = 0;
        while c < columns
            invariant
                columns == reagents@.len() + products@.len(),
                all_wf(reagents@),
                all_wf(products@),
                row < elements@.len(),
                c <= columns,
                matrix@.len() == row * columns + c,
                forall|rr: int, cc: int|
                    0 <= rr < row && 0 <= cc < columns ==> abs(#[trigger] cell(reagents@, products@, elements@[rr]@, cc)) <= i64::MAX,
                forall|cc: int|
                    0 <= cc < c ==> abs(#[trigger] cell(reagents@, products@, elements@[row as int]@, cc)) <= i64::MAX,
                forall|rr: int, cc: int|
                    0 <= rr < row && 0 <= cc < columns ==> #[trigger] at(matrix@, columns as int, rr, cc)
                        == cell(reagents@, products@, elements@[rr]@, cc),
                forall|cc: int|
                    0 <= cc < c ==> #[trigger] at(matrix@, columns as int, row as int, cc) == cell(
                        reagents@,
                        products@,
                        elements@[row as int]@,
                        cc,
                    ),
            decreases columns - c,
        {
            let count = if c < reagents.len() {
                assert(reagents@[c as int].wf());
                reagents[c].count_of(&elements[row])
            } else {
                assert(products@[c - reagents@.len()].wf());
                products[c - reagents.len()].count_of(&elements[row])
            };
            if count > i64::MAX as u64 {
                assert(abs(cell(reagents@, products@, elements@[row as int]@, c as int)) > i64::MAX);
                return Err(ReactionError::ArithmeticInvalid);
            }
            assert(abs(cell(reagents@, products@, elements@[row as int]@, c as int)) <= i64::MAX);
            let entry: i64 = if c < reagents.len() {
                count as i64
            } else {
                -(count as i64)
            };
            let ghost before = matrix@;
            matrix.push(entry);
            proof {
                assert forall|rr: int, cc: int|
                    0 <= rr < row && 0 <= cc < columns implies #[trigger] at(matrix@, columns as int, rr, cc)
                        == cell(reagents@, products@, elements@[rr]@, cc) by {
                    lemma_cell_index(rr, cc, row as int, columns as int);
                    assert(at(before, columns as int, rr, cc) == cell(reagents@, products@, elements@[rr]@, cc));
                }
                assert forall|cc: int|
                    0 <= cc < c + 1 implies #[trigger] at(matrix@, columns as int, row as int, cc) == cell(
                        reagents@,
                        products@,
                        elements@[row as int]@,
                        cc,
                    ) by {
                    if cc < c {
                        assert(at(before, columns as int, row as int, cc) == cell(reagents@, products@, elements@[row as int]@, cc));
                    }
                }
            }
            c += 1;
        }
        assert(matrix@.len() == (row + 1) * columns) by (nonlinear_arith)
            requires
                matrix@.len() == row * columns + columns,
        ;
        proof {
            assert forall|rr: int, cc: int|
                0 <= rr < row + 1 && 0 <= cc < columns implies #[trigger] at(matrix@, columns as int, rr, cc)
                    == cell(reagents@, products@, elements@[rr]@, cc) by {
                if rr == row {
                    assert(at(matrix@, columns as int, row as int, cc) == cell(reagents@, products@, elements@[row as int]@, cc));
                }
            }
        }
        row += 1;
    }
    Ok(ReactionMatrix { matrix, columns })
}

/// Rows `r1` and `r2` exchanged.
pub open spec fn swap_model(m: Seq<i64>, cols: int, r1: int, r2: int) -> Seq<i64> {
    Seq::new(
        m.len(),
        |i: int|
            if r1 * cols <= i < r1 * cols + cols {
                m[r2 * cols + (i - r1 * cols)]
            } else if r2 * cols <= i < r2 * cols + cols {
                m[r1 * cols + (i - r2 * cols)]
            } else {
                m[i]
            },
    )
}

/// Exchanges rows `row1` < `row2`.
fn swap_ordered_rows(vec: &mut Vec<i64>, row1: usize, row2: usize, columns: usize)
    requires
        row1 < row2,
        (row2 + 1) * columns <= old(vec)@.len(),
    ensures
        final(vec)@.len() == old(vec)@.len(),
        forall|c: int|
            0 <= c < columns ==> #[trigger] final(vec)@[row1 * columns + c] == old(vec)@[row2 * columns + c]
                && final(vec)@[row2 * columns + c] == old(vec)@[row1 * columns + c],
        forall|i: int|
            0 <= i < old(vec)@.len() && !(row1 * columns <= i < row1 * columns + columns) && !(row2
                * columns <= i < row2 * columns + columns) ==> #[trigger] final(vec)@[i] == old(vec)@[i],
        final(vec)@ == swap_model(old(vec)@, columns as int, row1 as int, row2 as int),
{
    let ghost start = vec@;
    let n = vec.len();
    assert(row1 * columns + columns <= row2 * columns && row2 * columns + columns == (row2 + 1) * columns) by (nonlinear_arith)
        requires
            row1 < row2,
    ;
    let row1_start_index = row1 * columns;
    let row2_start_index = row2 * columns;
    let mut column: usize = 0;
    while column < columns
        invariant
            column <= columns,
            row1_start_index == row1 * columns,
            row2_start_index == row2 * columns,
            row1_start_index + columns <= row2_start_index,
            row2_start_index + columns <= start.len(),
            start.len() == n,
            start == old(vec)@,
            vec@.len() == start.len(),
            forall|c: int|
                0 <= c < column ==> #[trigger] vec@[row1 * columns + c] == start[row2 * columns + c]
                    && vec@[row2 * columns + c] == start[row1 * columns + c],
            forall|i: int|
                0 <= i < start.len() && !(row1 * columns <= i < row1 * columns + column) && !(row2
                    * columns <= i < row2 * columns + column) ==> #[trigger] vec@[i] == start[i],
        decreases columns - column,
    {
        let index1 = row1_start_index + column;
        let index2 = row2_start_index + column;
        let first = vec[index1];
        let second = vec[index2];
        vec.set(index1, second);
        vec.set(index2, first);
        column += 1;
    }
    proof {
        let sm = swap_model(start, columns as int, row1 as int, row2 as int);
        assert forall|i: int| 0 <= i < vec@.len() implies vec@[i] == sm[i] by {
            if row1 * columns <= i < row1 * columns + columns {
                let c = i - row1 * columns;
                assert(vec@[row1 * columns + c] == start[row2 * columns + c]);
            } else if row2 * columns <= i < row2 * columns + columns {
                let c = i - row2 * columns;
                assert(vec@[row1 * columns + c] == start[row2 * columns + c]);
            }
        }
        assert(vec@ =~= sm);
    }
}

/// Exchanges rows `row1` and `row2` of a matrix with `columns` columns.
fn swap_row(vec: &mut Vec<i64>, row1: usize, row2: usize, columns: usize)
    requires
        (row1 + 1) * columns <= old(vec)@.len(),
        (row2 + 1) * columns <= old(vec)@.len(),
    ensures
        final(vec)@ == swap_model(old(vec)@, columns as int, row1 as int, row2 as int),
{
    let ghost m = vec@;
    if row1 == row2 {
        assert(vec@ =~= swap_model(m, columns as int, row1 as int, row2 as int));
    } else if row1 < row2 {
        swap_ordered_rows(vec, row1, row2, columns);
    } else {
        swap_ordered_rows(vec, row2, row1, columns);
        assert(row2 * columns + columns <= row1 * columns) by (nonlinear_arith)
            requires
                row2 < row1,
        ;
        assert(swap_model(m, columns as int, row2 as int, row1 as int) =~= swap_model(
            m,
            columns as int,
            row1 as int,
            row2 as int,
        ));
    }
}

/// The sign-carrying factor that scales an entry `p` to the multiple `l` of it.
pub open spec fn factor(l: int, p: int) -> int {
    if p > 0 {
        l / p
    } else {
        -(l / -p)
    }
}

/// `x` fits in an `i64`.
pub open spec fn in_i64(x: int) -> bool {
    i64::MIN <= x <= i64::MAX
}

/// Every new entry of a cancellation fits in an `i64`.
pub open spec fn cancel_fits(m: Seq<i64>, cols: int, r1: int, r2: int, f: int, f1: int, f2: int) -> bool {
    forall|c: int|
        f <= c < cols ==> in_i64(at(m, cols, r1, c) * f1 - (#[trigger] at(m, cols, r2, c)) * f2)
}

/// Row `r2` replaced, from column `f` on, by `f1` times row `r1` minus `f2`
/// times itself.
pub open spec fn cancelled_rows(m: Seq<i64>, cols: int, r1: int, r2: int, f: int, f1: int, f2: int) -> Seq<i64> {
    Seq::new(
        m.len(),
        |i: int|
            if r2 * cols + f <= i < r2 * cols + cols {
                (m[r1 * cols + (i - r2 * cols)] * f1 - m[i] * f2) as i64
            } else {
                m[i]
            },
    )
}

/// The elimination of column `f` from row `r2` by row `r1`, with `None` where
/// the pivot is zero (an lcm operand of zero) or a value leaves `i64`.
pub open spec fn cancel_model(m: Seq<i64>, cols: int, r1: int, r2: int, f: int) -> Option<Seq<i64>> {
    let pivot = at(m, cols, r1, f) as int;
    let entry = at(m, cols, r2, f) as int;
    if entry == 0 {
        Some(m)
    } else if pivot == 0 || pivot == i64::MIN || entry == i64::MIN || lcm_spec(
        abs(pivot) as nat,
        abs(entry) as nat,
    ) > i64::MAX {
        None
    } else {
        let l = lcm_spec(abs(pivot) as nat, abs(entry) as nat) as int;
        if cancel_fits(m, cols, r1, r2, f, factor(l, pivot), factor(l, entry)) {
            Some(cancelled_rows(m, cols, r1, r2, f, factor(l, pivot), factor(l, entry)))
        } else {
            None
        }
    }
}

/// Fraction-free elimination of column `first` from row `row2` by row `row1`:
/// both rows are scaled to the least common multiple of their entries in that
/// column, and row `row2` becomes the difference from that column on.
/// `ArithmeticInvalid` where the entry of `row1` is zero or a value overflows.
fn cancel_row(vec: &mut Vec<i64>, row1: usize, row2: usize, columns: usize, first_nonzero: usize) -> (r:
    Result<(), ReactionError>)
    requires
        row1 != row2,
        first_nonzero < columns,
        (row1 + 1) * columns <= old(vec)@.len(),
        (row2 + 1) * columns <= old(vec)@.len(),
    ensures
        final(vec)@.len() == old(vec)@.len(),
        r is Err ==> r == Err::<(), ReactionError>(ReactionError::ArithmeticInvalid),
        r is Ok <==> cancel_model(old(vec)@, columns as int, row1 as int, row2 as int, first_nonzero as int) is Some,
        r is Ok ==> cancel_model(old(vec)@, columns as int, row1 as int, row2 as int, first_nonzero as int) == Some(final(vec)@),
        r is Ok ==> forall|i: int|
            0 <= i < old(vec)@.len() && !(row2 * columns + first_nonzero <= i < row2 * columns
                + columns) ==> #[trigger] final(vec)@[i] == old(vec)@[i],
        r is Ok && old(vec)@[row2 * columns + first_nonzero] == 0 ==> final(vec)@ == old(vec)@,
        r is Ok && old(vec)@[row2 * columns + first_nonzero] != 0 ==> ({
            let pivot = old(vec)@[row1 * columns + first_nonzero] as int;
            let entry = old(vec)@[row2 * columns + first_nonzero] as int;
            let l = lcm_spec(abs(pivot) as nat, abs(entry) as nat) as int;
            &&& forall|c: int|
                first_nonzero <= c < columns ==> #[trigger] final(vec)@[row2 * columns + c]
                    == old(vec)@[row1 * columns + c] * factor(l, pivot) - old(vec)@[row2 * columns + c]
                    * factor(l, entry)
            &&& final(vec)@[row2 * columns + first_nonzero] == 0
        }),
{
    let ghost start = vec@;
    let n = vec.len();
    assert((row1 * columns + columns <= row2 * columns || row2 * columns + columns <= row1 * columns)
        && row2 * columns + columns == (row2 + 1) * columns && row1 * columns + columns == (row1 + 1)
        * columns) by (nonlinear_arith)
        requires
            row1 != row2,
    ;
    let row1_start_index = row1 * columns;
    let row2_start_index = row2 * columns;
    if vec[row2_start_index + first_nonzero] == 0 {
        assert(at(start, columns as int, row2 as int, first_nonzero as int) == 0);
        return Ok(());
    }
    assert(at(start, columns as int, row1 as int, first_nonzero as int) == start[row1 * columns + first_nonzero]);
    assert(at(start, columns as int, row2 as int, first_nonzero as int) == start[row2 * columns + first_nonzero]);
    let pivot = vec[row1_start_index + first_nonzero];
    let entry = vec[row2_start_index + first_nonzero];
    if pivot == i64::MIN || entry == i64::MIN {
        return Err(ReactionError::ArithmeticInvalid);
    }
    let a1: i64 = if pivot < 0 {
        -pivot
    } else {
        pivot
    };
    let a2: i64 = if entry < 0 {
        -entry
    } else {
        entry
    };
    let l = match lcm(a1, a2) {
        Ok(l) => l,
        Err(e) => {
            return Err(e);
        },
    };
    let row1_factor: i64 = if pivot < 0 {
        -(l / a1)
    } else {
        l / a1
    };
    let row2_factor: i64 = if entry < 0 {
        -(l / a2)
    } else {
        l / a2
    };
    proof {
        lemma_divides_elim(a1 as int, l as int);
        lemma_divides_elim(a2 as int, l as int);
        assert(0 <= l / a1 <= l) by (nonlinear_arith)
            requires
                a1 >= 1,
                l >= 1,
        ;
        assert(0 <= l / a2 <= l) by (nonlinear_arith)
            requires
                a2 >= 1,
                l >= 1,
        ;
        assert(pivot * row1_factor == l) by (nonlinear_arith)
            requires
                l == a1 * (l / a1),
                a1 == abs(pivot as int),
                row1_factor == (if pivot < 0 { -(l / a1) } else { l / a1 }),
        ;
        assert(entry * row2_factor == l) by (nonlinear_arith)
            requires
                l == a2 * (l / a2),
                a2 == abs(entry as int),
                row2_factor == (if entry < 0 { -(l / a2) } else { l / a2 }),
        ;
    }
    let mut column: usize = first_nonzero;
    while column < columns
        invariant
            first_nonzero <= column <= columns,
            row1_start_index == row1 * columns,
            row2_start_index == row2 * columns,
            row1_start_index + columns <= row2_start_index || row2_start_index + columns
                <= row1_start_index,
            row1_start_index + columns <= start.len(),
            row2_start_index + columns <= start.len(),
            start.len() == n,
            start == old(vec)@,
            vec@.len() == start.len(),
            pivot * row1_factor == l,
            entry * row2_factor == l,
            pivot == start[row1 * columns + first_nonzero],
            entry == start[row2 * columns + first_nonzero],
            row1_factor == factor(l as int, pivot as int),
            row2_factor == factor(l as int, entry as int),
            l == lcm_spec(abs(pivot as int) as nat, abs(entry as int) as nat),
            -i64::MAX <= row1_factor,
            -i64::MAX <= row2_factor,
            pivot != 0 && pivot != i64::MIN && entry != 0 && entry != i64::MIN,
            at(start, columns as int, row1 as int, first_nonzero as int) == pivot,
            at(start, columns as int, row2 as int, first_nonzero as int) == entry,
            forall|c: int|
                first_nonzero <= c < column ==> #[trigger] vec@[row2 * columns + c] == start[row1
                    * columns + c] * row1_factor - start[row2 * columns + c] * row2_factor,
            forall|i: int|
                0 <= i < start.len() && !(row2 * columns + first_nonzero <= i < row2 * columns
                    + column) ==> #[trigger] vec@[i] == start[i],
        decreases columns - column,
    {
        let index1 = row1_start_index + column;
        let index2 = row2_start_index + column;
        let ghost x1 = at(start, columns as int, row1 as int, column as int);
        let ghost x2 = at(start, columns as int, row2 as int, column as int);
        assert(vec@[index1 as int] == x1 && vec@[index2 as int] == x2);
        let y1 = vec[index1] as i128;
        let y2 = vec[index2] as i128;
        let g1 = row1_factor as i128;
        let g2 = row2_factor as i128;
        assert(-0x8000_0000_0000_0000 * 0x7fff_ffff_ffff_ffff <= y1 * g1 <= 0x8000_0000_0000_0000 * 0x7fff_ffff_ffff_ffff) by (nonlinear_arith)
            requires
                i64::MIN <= y1 <= i64::MAX,
                -i64::MAX <= g1 <= i64::MAX,
        ;
        assert(-0x8000_0000_0000_0000 * 0x7fff_ffff_ffff_ffff <= y2 * g2 <= 0x8000_0000_0000_0000 * 0x7fff_ffff_ffff_ffff) by (nonlinear_arith)
            requires
                i64::MIN <= y2 <= i64::MAX,
                -i64::MAX <= g2 <= i64::MAX,
        ;
        let d: i128 = y1 * g1 - y2 * g2;
        if d < i64::MIN as i128 || d > i64::MAX as i128 {
            proof {
                assert(!in_i64(x1 * row1_factor - (#[trigger] at(start, columns as int, row2 as int, column as int)) * row2_factor));
                assert(!cancel_fits(start, columns as int, row1 as int, row2 as int, first_nonzero as int, row1_factor as int, row2_factor as int));
            }
            return Err(ReactionError::ArithmeticInvalid);
        }
        let cancelled = d as i64;
        vec.set(index2, cancelled);
        column += 1;
    }
    assert(vec@[row2 * columns + first_nonzero] == 0) by (nonlinear_arith)
        requires
            vec@[row2 * columns + first_nonzero] == start[row1 * columns + first_nonzero]
                * row1_factor - start[row2 * columns + first_nonzero] * row2_factor,
            pivot == start[row1 * columns + first_nonzero],
            entry == start[row2 * columns + first_nonzero],
            pivot * row1_factor == l,
            entry * row2_factor == l,
    ;
    proof {
        assert forall|c: int| first_nonzero <= c < columns implies in_i64(
            at(start, columns as int, row1 as int, c) * row1_factor - (#[trigger] at(start, columns as int, row2 as int, c)) * row2_factor,
        ) by {
            assert(vec@[row2 * columns + c] == start[row1 * columns + c] * row1_factor - start[row2 * columns + c] * row2_factor);
        }
        assert(cancel_fits(start, columns as int, row1 as int, row2 as int, first_nonzero as int, row1_factor as int, row2_factor as int));
        let m = cancelled_rows(start, columns as int, row1 as int, row2 as int, first_nonzero as int, row1_factor as int, row2_factor as int);
        assert forall|i: int| 0 <= i < vec@.len() implies vec@[i] == m[i] by {
            if row2 * columns + first_nonzero <= i < row2 * columns + columns {
                let c = i - row2 * columns;
                assert(vec@[row2 * columns + c] == start[row1 * columns + c] * row1_factor - start[row2 * columns + c] * row2_factor);
            }
        }
        assert(vec@ =~= m);
    }
    Ok(())
}

proof fn lemma_row_fits(row: int, rows: int, cols: int)
    requires
        0 <= row < rows,
        cols >= 0,
    ensures
        (row + 1) * cols <= rows * cols,
{
    assert((row + 1) * cols <= rows * cols) by (nonlinear_arith)
        requires
            0 <= row < rows,
            cols >= 0,
    ;
}

// ---------------------------------------------------------------------------
// Model of elimination and back-substitution
// ---------------------------------------------------------------------------

/// The first row from `j` on whose entry in column `k` is nonzero.
pub open spec fn nonzero_below(m: Seq<i64>, cols: int, rows: int, k: int, j: int) -> Option<int>
    decreases rows - j,
{
    if j >= rows {
        None
    } else if at(m, cols, j, k) != 0 {
        Some(j)
    } else {
        nonzero_below(m, cols, rows, k, j + 1)
    }
}

/// A zero pivot at (`k`, `k`) is exchanged with the first row below that has
/// a nonzero entry in column `k`, if there is one.
pub open spec fn pivoted(m: Seq<i64>, cols: int, rows: int, k: int) -> Seq<i64> {
    if at(m, cols, k, k) != 0 {
        m
    } else {
        match nonzero_below(m, cols, rows, k, k + 1) {
            Some(j) => swap_model(m, cols, k, j),
            None => m,
        }
    }
}

/// Column `k` eliminated from rows `j` on by row `k`.
pub open spec fn cancel_below(m: Seq<i64>, cols: int, rows: int, k: int, j: int) -> Option<Seq<i64>>
    decreases rows - j,
{
    if j >= rows {
        Some(m)
    } else {
        match cancel_model(m, cols, k, j, k) {
            Some(m2) => cancel_below(m2, cols, rows, k, j + 1),
            None => None,
        }
    }
}

/// Forward elimination of columns `k` to `cols - 2`.
pub open spec fn forward(m: Seq<i64>, cols: int, rows: int, k: int) -> Option<Seq<i64>>
    decreases cols - k,
{
    if k >= cols - 1 || k < 0 {
        Some(m)
    } else {
        match cancel_below(pivoted(m, cols, rows, k), cols, rows, k, k + 1) {
            Some(m2) => forward(m2, cols, rows, k + 1),
            None => None,
        }
    }
}

/// The sum over the first `n` solved values of row `r`'s entry times the
/// value, the `t`-th value belonging to column `cols - 1 - t`; `None` where a
/// product or partial sum leaves `i64`.
pub open spec fn row_sum(m: Seq<i64>, cols: int, r: int, sols: Seq<i64>, n: int) -> Option<i64>
    decreases n,
{
    if n <= 0 {
        Some(0)
    } else {
        match row_sum(m, cols, r, sols, n - 1) {
            None => None,
            Some(acc) => {
                let p = at(m, cols, r, cols - n) * sols[n - 1];
                if !in_i64(p) || !in_i64(acc + p) {
                    None
                } else {
                    Some((acc + p) as i64)
                }
            },
        }
    }
}

proof fn lemma_row_sum_none(m: Seq<i64>, cols: int, r: int, sols: Seq<i64>, n: int, n2: int)
    requires
        0 <= n <= n2,
        row_sum(m, cols, r, sols, n) is None,
    ensures
        row_sum(m, cols, r, sols, n2) is None,
    decreases n2 - n,
{
    if n < n2 {
        lemma_row_sum_none(m, cols, r, sols, n, n2 - 1);
    }
}

pub open spec fn scale_all(sols: Seq<i64>, f: int) -> Seq<i64> {
    sols.map_values(|x: i64| (x * f) as i64)
}

/// Back-substitution from pivot row `row - 1` up to row 0: with `A` the
/// pivot's magnitude and `S` that of the row sum over the solved values, the
/// new value is `lcm(A, S) / A` and the solved values are scaled by
/// `lcm(A, S) / S`. `None` where an operand of the lcm is zero or a value
/// leaves `i64`.
pub open spec fn back_model(m: Seq<i64>, cols: int, row: int, sols: Seq<i64>) -> Option<Seq<i64>>
    decreases row,
{
    if row <= 0 {
        Some(sols)
    } else {
        let r = row - 1;
        match row_sum(m, cols, r, sols, sols.len() as int) {
            None => None,
            Some(s) => {
                let first = at(m, cols, r, r);
                if s == i64::MIN || first == i64::MIN {
                    None
                } else {
                    let a: int = abs(first as int) as int;
                    let b: int = abs(s as int) as int;
                    if a == 0 || b == 0 || lcm_spec(a as nat, b as nat) > i64::MAX {
                        None
                    } else {
                        let l = lcm_spec(a as nat, b as nat) as int;
                        if exists|t: int| 0 <= t < sols.len() && !in_i64(#[trigger] sols[t] * (l / b)) {
                            None
                        } else {
                            back_model(m, cols, r, scale_all(sols, l / b).push((l / a) as i64))
                        }
                    }
                }
            },
        }
    }
}

pub open spec fn reversed(s: Seq<i64>) -> Seq<i64> {
    Seq::new(s.len(), |i: int| s[s.len() - 1 - i])
}

/// The coefficients that elimination and back-substitution find for a matrix
/// with `cols` columns and `rows` rows, the last one anchored at one.
pub open spec fn gauss_model(m: Seq<i64>, cols: int, rows: int) -> Option<Seq<i64>> {
    match forward(m, cols, rows, 0) {
        None => None,
        Some(m2) => match back_model(m2, cols, cols - 1, seq![1i64]) {
            None => None,
            Some(sols) => Some(reversed(sols)),
        },
    }
}

/// The matrix has no columns, or fewer rows than columns less one: the
/// coefficients are not fixed up to a common factor.
spec fn too_few_rows(matrix: ReactionMatrix) -> bool {
    matrix.columns == 0 || matrix.matrix@.len() as int / (matrix.columns as int) + 1 < matrix.columns
}

/// The coefficients that `gauss_model` gives for a balance matrix.
spec fn gauss_of(matrix: ReactionMatrix) -> Option<Seq<i64>> {
    gauss_model(
        matrix.matrix@,
        matrix.columns as int,
        matrix.matrix@.len() as int / (matrix.columns as int),
    )
}

/// Fraction-free Gaussian elimination and back-substitution, as `gauss_model`
/// states, on a matrix with at least `columns - 1` rows (`InfiniteSolution`
/// otherwise): the last coefficient
/// is fixed at one, and each earlier one is found by scaling to a least common
/// multiple. Every coefficient returned is positive; `ArithmeticInvalid` where
/// an operand of a least common multiple is zero or a value overflows.
fn integer_gauss(matrix: ReactionMatrix) -> (r: Result<Vec<i64>, ReactionError>)
    requires
        matrix.columns >= 1 ==> matrix.matrix@.len() as int % (matrix.columns as int) == 0,
    ensures
        too_few_rows(matrix) ==> r == Err::<Vec<i64>, ReactionError>(ReactionError::InfiniteSolution),
        r matches Ok(v) ==> v@.len() == matrix.columns && forall|i: int|
            0 <= i < v@.len() ==> #[trigger] v@[i] >= 1,
        r matches Ok(v) ==> gauss_of(matrix) == Some(v@),
        !too_few_rows(matrix) ==> (r is Err <==> gauss_of(matrix) is None),
        !too_few_rows(matrix) && r is Err ==> r == Err::<Vec<i64>, ReactionError>(
            ReactionError::ArithmeticInvalid,
        ),
{
    if matrix.columns == 0 || matrix.matrix.len() / matrix.columns < matrix.columns - 1 {
        return Err(ReactionError::InfiniteSolution);
    }
    let ghost m0 = matrix.matrix@;
    let ghost rows_spec = matrix.matrix@.len() as int / (matrix.columns as int);
    let ghost c0 = matrix.columns as int;
    let ghost g0 = gauss_of(matrix);
    assert(g0 == gauss_model(m0, c0, rows_spec));
    let columns = matrix.columns;
    let mut grid = matrix.matrix;
    let total = grid.len();
    let rows = total / columns;
    proof {
        lemma_fundamental_div_mod(grid@.len() as int, columns as int);
    }
    let ghost c = columns as int;
    let ghost rs = rows as int;
    assert(rs == rows_spec);
    assert(c == c0);
    let least_required_rows = columns - 1;
    let mut row: usize = 0;
    while row < least_required_rows
        invariant
            columns >= 1,
            c == columns,
            c == c0,
            g0 == gauss_model(m0, c0, rows_spec),
            g0 == gauss_of(matrix),
            !too_few_rows(matrix),
            rs == rows_spec,
            rs == rows,
            least_required_rows == columns - 1,
            rows + 1 >= columns,
            grid@.len() == rows * columns,
            grid@.len() == total,
            row <= least_required_rows,
            forward(m0, c, rs, 0) == forward(grid@, c, rs, row as int),
        decreases least_required_rows - row,
    {
        proof {
            lemma_row_fits(row as int, rows as int, columns as int);
            lemma_cell_index(row as int, row as int, rows as int, columns as int);
        }
        let ghost mk = grid@;
        let first_term_column = row;
        if grid[row * columns + first_term_column] == 0 {
            let mut other_row = row + 1;
            let mut swapped = false;
            while other_row < rows && !swapped
                invariant
                    row < other_row <= rows,
                    row < columns,
                    c == columns,
                    c == c0,
                    g0 == gauss_model(m0, c0, rows_spec),
                    g0 == gauss_of(matrix),
                    !too_few_rows(matrix),
                !too_few_rows(matrix),
            !too_few_rows(matrix),
                    rs == rows_spec,
                    rs == rows,
                    grid@.len() == rows * columns,
                    grid@.len() == total,
                    first_term_column == row,
                    at(mk, c, row as int, row as int) == 0,
                    !swapped ==> grid@ == mk && nonzero_below(mk, c, rs, row as int, row + 1)
                        == nonzero_below(mk, c, rs, row as int, other_row as int),
                    swapped ==> grid@ == pivoted(mk, c, rs, row as int),
                decreases rows - other_row + (if swapped { 0int } else { 1int }),
            {
                proof {
                    lemma_row_fits(row as int, rows as int, columns as int);
                    lemma_row_fits(other_row as int, rows as int, columns as int);
                    lemma_cell_index(other_row as int, row as int, rows as int, columns as int);
                }
                if grid[other_row * columns + first_term_column] != 0 {
                    assert(at(mk, c, other_row as int, row as int) != 0);
                    swap_row(&mut grid, row, other_row, columns);
                    swapped = true;
                } else {
                    assert(at(mk, c, other_row as int, row as int) == 0);
                    other_row += 1;
                }
            }
            proof {
                if !swapped {
                    assert(nonzero_below(mk, c, rs, row as int, other_row as int) is None);
                }
            }
        }
        let ghost mp = grid@;
        assert(mp == pivoted(mk, c, rs, row as int));
        let mut other_row = row + 1;
        while other_row < rows
            invariant
                row < other_row <= rows,
                row < columns,
                c == columns,
                c == c0,
                g0 == gauss_model(m0, c0, rows_spec),
                g0 == gauss_of(matrix),
                !too_few_rows(matrix),
            !too_few_rows(matrix),
                rs == rows_spec,
                rs == rows,
                grid@.len() == rows * columns,
                grid@.len() == total,
                first_term_column == row,
                row + 1 < c + 1,
                row < least_required_rows,
                least_required_rows == columns - 1,
                mp == pivoted(mk, c, rs, row as int),
                forward(m0, c, rs, 0) == forward(mk, c, rs, row as int),
                cancel_below(mp, c, rs, row as int, row + 1) == cancel_below(
                    grid@,
                    c,
                    rs,
                    row as int,
                    other_row as int,
                ),
            decreases rows - other_row,
        {
            proof {
                lemma_row_fits(row as int, rows as int, columns as int);
                lemma_row_fits(other_row as int, rows as int, columns as int);
            }
            let ghost before = grid@;
            match cancel_row(&mut grid, row, other_row, columns, first_term_column) {
                Ok(()) => {},
                Err(e) => {
                    assert(cancel_below(before, c, rs, row as int, other_row as int) is None);
                    assert(forward(mk, c, rs, row as int) is None);
                    assert(gauss_model(m0, c0, rows_spec) is None);
                    assert(g0 is None);
                    return Err(e);
                },
            }
            other_row += 1;
        }
        row += 1;
    }
    let ghost mf = grid@;
    assert(forward(m0, c, rs, 0) == Some(mf));
    let mut solutions: Vec<i64> = Vec::new();
    solutions.push(1);
    assert(solutions@ =~= seq![1i64]);
    let mut row: usize = least_required_rows;
    while row > 0
        invariant
            columns >= 1,
            c == columns,
            c == c0,
            g0 == gauss_model(m0, c0, rows_spec),
            g0 == gauss_of(matrix),
            !too_few_rows(matrix),
            rs == rows_spec,
            rs == rows,
            least_required_rows == columns - 1,
            rows + 1 >= columns,
            grid@ == mf,
            forward(m0, c, rs, 0) == Some(mf),
            grid@.len() == rows * columns,
            grid@.len() == total,
            row <= least_required_rows,
            solutions@.len() == columns - row,
            forall|i: int| 0 <= i < solutions@.len() ==> #[trigger] solutions@[i] >= 1,
            back_model(mf, c, c - 1, seq![1i64]) == back_model(mf, c, row as int, solutions@),
        decreases row,
    {
        let ghost sols0 = solutions@;
        assert(back_model(mf, c, c - 1, seq![1i64]) == back_model(mf, c, row as int, sols0));
        row -= 1;
        let mut other_sum: i64 = 0;
        let mut solution_index: usize = 0;
        while solution_index < solutions.len()
            invariant
                row < rows,
                row < columns,
                c == columns,
                c == c0,
                g0 == gauss_model(m0, c0, rows_spec),
                g0 == gauss_of(matrix),
                !too_few_rows(matrix),
            !too_few_rows(matrix),
                rs == rows_spec,
                grid@ == mf,
                forward(m0, c, rs, 0) == Some(mf),
                solutions@ == sols0,
                grid@.len() == rows * columns,
                grid@.len() == total,
                solutions@.len() == columns - row - 1,
                solution_index <= solutions@.len(),
                row_sum(mf, c, row as int, sols0, solution_index as int) == Some(other_sum),
                back_model(mf, c, c - 1, seq![1i64]) == back_model(mf, c, row + 1, sols0),
            decreases solutions.len() - solution_index,
        {
            let other_term = columns - 1 - solution_index;
            proof {
                lemma_cell_index(row as int, other_term as int, rows as int, columns as int);
            }
            let coefficient = grid[row * columns + other_term];
            let value = solutions[solution_index];
            assert(coefficient == at(mf, c, row as int, c - (solution_index + 1)));
            let product = match coefficient.checked_mul(value) {
                Some(x) => x,
                None => {
                    proof {
                        assert(row_sum(mf, c, row as int, sols0, solution_index + 1) is None);
                        lemma_row_sum_none(mf, c, row as int, sols0, solution_index + 1, sols0.len() as int);
                        assert(gauss_model(m0, c0, rows_spec) is None);
                    assert(g0 is None);
                    }
                    return Err(ReactionError::ArithmeticInvalid);
                },
            };
            other_sum = match other_sum.checked_add(product) {
                Some(x) => x,
                None => {
                    proof {
                        assert(row_sum(mf, c, row as int, sols0, solution_index + 1) is None);
                        lemma_row_sum_none(mf, c, row as int, sols0, solution_index + 1, sols0.len() as int);
                        assert(gauss_model(m0, c0, rows_spec) is None);
                    assert(g0 is None);
                    }
                    return Err(ReactionError::ArithmeticInvalid);
                },
            };
            solution_index += 1;
        }
        proof {
            lemma_cell_index(row as int, row as int, rows as int, columns as int);
        }
        let first = grid[row * columns + row];
        assert(first == at(mf, c, row as int, row as int));
        assert(row_sum(mf, c, row as int, sols0, sols0.len() as int) == Some(other_sum));
        let ghost signed_sum = other_sum;
        if other_sum == i64::MIN || first == i64::MIN {
            assert(back_model(mf, c, row + 1, sols0) is None);
            assert(gauss_model(m0, c0, rows_spec) is None);
                    assert(g0 is None);
            return Err(ReactionError::ArithmeticInvalid);
        }
        let other_sum: i64 = if other_sum < 0 {
            -other_sum
        } else {
            other_sum
        };
        // equation: first * x + other_sum == 0
        let first_coefficient: i64 = if first < 0 {
            -first
        } else {
            first
        };
        assert(first_coefficient == abs(first as int) && other_sum == abs(signed_sum as int));
        let l = match lcm(first_coefficient, other_sum) {
            Ok(l) => l,
            Err(e) => {
                assert(back_model(mf, c, row + 1, sols0) is None);
                assert(gauss_model(m0, c0, rows_spec) is None);
                    assert(g0 is None);
                return Err(e);
            },
        };
        let solution = l / first_coefficient;
        let other_factor = l / other_sum;
        proof {
            lemma_divides_elim(first_coefficient as int, l as int);
            lemma_divides_elim(other_sum as int, l as int);
            assert(solution >= 1) by (nonlinear_arith)
                requires
                    l == first_coefficient * solution,
                    l >= 1,
                    first_coefficient > 0,
            ;
            assert(other_factor >= 1) by (nonlinear_arith)
                requires
                    l == other_sum * other_factor,
                    l >= 1,
                    other_sum > 0,
            ;
        }
        let mut t: usize = 0;
        while t < solutions.len()
            invariant
                t <= solutions@.len(),
                solutions@.len() == sols0.len(),
                solutions@.len() == columns - row - 1,
                other_factor >= 1,
                c == columns,
                c == c0,
                g0 == gauss_model(m0, c0, rows_spec),
                g0 == gauss_of(matrix),
                !too_few_rows(matrix),
            !too_few_rows(matrix),
                rs == rows_spec,
                forall|i: int| 0 <= i < solutions@.len() ==> #[trigger] solutions@[i] >= 1,
                forall|i: int| t <= i < solutions@.len() ==> (#[trigger] solutions@[i]) == sols0[i],
                forall|i: int| 0 <= i < t ==> in_i64((#[trigger] sols0[i]) * other_factor),
                forall|i: int|
                    0 <= i < t ==> (#[trigger] solutions@[i]) == (sols0[i] * other_factor) as i64,
                l == lcm_spec(first_coefficient as nat, other_sum as nat),
                other_factor == l / other_sum,
                back_model(mf, c, c - 1, seq![1i64]) == back_model(mf, c, row + 1, sols0),
                forward(m0, c, rs, 0) == Some(mf),
                row_sum(mf, c, row as int, sols0, sols0.len() as int) == Some(signed_sum),
                first == at(mf, c, row as int, row as int),
                first != i64::MIN && signed_sum != i64::MIN,
                first_coefficient == abs(first as int) && other_sum == abs(signed_sum as int),
                first_coefficient > 0 && other_sum > 0 && l <= i64::MAX,
            decreases solutions.len() - t,
        {
            assert(solutions@[t as int] == sols0[t as int]);
            let scaled = match solutions[t].checked_mul(other_factor) {
                Some(x) => x,
                None => {
                    assert(!in_i64(sols0[t as int] * other_factor));
                    assert(back_model(mf, c, row + 1, sols0) is None);
                    assert(gauss_model(m0, c0, rows_spec) is None);
                    assert(g0 is None);
                    return Err(ReactionError::ArithmeticInvalid);
                },
            };
            assert(scaled >= 1) by (nonlinear_arith)
                requires
                    scaled == solutions@[t as int] * other_factor,
                    solutions@[t as int] >= 1,
                    other_factor >= 1,
            ;
            let ghost prev = solutions@;
            solutions.set(t, scaled);
            proof {
                assert(in_i64(sols0[t as int] * other_factor));
                assert forall|i: int|
                    0 <= i < t + 1 implies (#[trigger] solutions@[i]) == (
                    sols0[i] * other_factor) as i64 by {
                    if i < t {
                        assert(solutions@[i] == prev[i]);
                    }
                }
            }
            t += 1;
        }
        proof {
            assert(solutions@ =~= scale_all(sols0, other_factor as int));
            assert(!(exists|t: int| 0 <= t < sols0.len() && !in_i64(#[trigger] sols0[t] * other_factor)));
        }
        solutions.push(solution);
        assert(back_model(mf, c, row + 1, sols0) == back_model(mf, c, row as int, solutions@));
    }
    let ghost sols = solutions@;
    assert(back_model(mf, c, 0, sols) == Some(sols));
    let mut result: Vec<i64> = Vec::new();
    let mut t: usize = solutions.len();
    while t > 0
        invariant
            t <= solutions@.len(),
            solutions@ == sols,
            result@.len() == solutions@.len() - t,
            forall|i: int| 0 <= i < solutions@.len() ==> #[trigger] solutions@[i] >= 1,
            forall|i: int| 0 <= i < result@.len() ==> #[trigger] result@[i] >= 1,
            forall|i: int| 0 <= i < result@.len() ==> (#[trigger] result@[i]) == sols[sols.len() - 1 - i],
        decreases t,
    {
        t -= 1;
        result.push(solutions[t]);
    }
    assert(result@ =~= reversed(sols));
    assert(gauss_model(m0, c, rs) == Some(result@));
    Ok(result)
}

// ---------------------------------------------------------------------------
// Normalisation and the balance check
// ---------------------------------------------------------------------------

/// The greatest common divisor of all entries (zero for none).
pub open spec fn gcd_all(v: Seq<i64>) -> nat
    decreases v.len(),
{
    if v.len() == 0 {
        0
    } else {
        gcd_spec(gcd_all(v.drop_last()), v.last() as nat)
    }
}

/// The gcd of positive entries is positive, divides each of them, and is
/// divided by each of their common divisors.
proof fn lemma_gcd_all(v: Seq<i64>, d: int)
    requires
        v.len() >= 1,
        forall|i: int| 0 <= i < v.len() ==> #[trigger] v[i] >= 1,
    ensures
        gcd_all(v) > 0,
        divides_all(gcd_all(v) as int, v),
        d > 0 && divides_all(d, v) ==> divides(d, gcd_all(v) as int),
    decreases v.len(),
{
    let p = v.drop_last();
    let x = v.last() as nat;
    if v.len() == 1 {
        assert(gcd_all(p) == 0);
        lemma_gcd_divides(0, x);
        if d > 0 && divides_all(d, v) {
            assert(divides(d, v[0] as int));
            lemma_common_divides_gcd(0, x, d);
        }
    } else {
        lemma_gcd_all(p, d);
        let g0 = gcd_all(p);
        lemma_gcd_divides(g0, x);
        let g = gcd_all(v) as int;
        assert forall|i: int| 0 <= i < v.len() implies divides(g, #[trigger] v[i] as int) by {
            if i < p.len() {
                assert(divides(g0 as int, p[i] as int));
                lemma_divides_trans(g, g0 as int, v[i] as int);
            }
        }
        if d > 0 && divides_all(d, v) {
            assert forall|i: int| 0 <= i < p.len() implies divides(d, #[trigger] p[i] as int) by {
                assert(divides(d, v[i] as int));
            }
            assert(divides(d, v[v.len() - 1] as int));
            lemma_common_divides_gcd(g0, x, d);
        }
    }
}

/// Each entry divided by the gcd of all entries.
pub open spec fn reduced(w: Seq<i64>) -> Seq<i64> {
    w.map_values(|x: i64| (x as int / gcd_all(w) as int) as i64)
}

/// Divides positive coefficients by their greatest common divisor.
fn reduce(v: Vec<i64>) -> (w: Vec<i64>)
    requires
        v@.len() >= 1,
        forall|i: int| 0 <= i < v@.len() ==> #[trigger] v@[i] >= 1,
    ensures
        w@.len() == v@.len(),
        forall|i: int| 0 <= i < w@.len() ==> #[trigger] w@[i] >= 1,
        forall|i: int| 0 <= i < w@.len() ==> v@[i] == #[trigger] w@[i] * gcd_all(v@),
        w@ == reduced(v@),
        coprime_entries(w@),
{
    let mut g: i64 = v[0];
    let mut i: usize = 1;
    proof {
        assert(v@.take(1).drop_last() =~= Seq::<i64>::empty());
        assert(v@.take(1).len() == 1);
        assert(v@.take(1).last() == v@[0]);
        assert(gcd_all(Seq::<i64>::empty()) == 0);
        assert(gcd_all(v@.take(1)) == gcd_spec(
            gcd_all(v@.take(1).drop_last()),
            v@.take(1).last() as nat,
        ));
        assert(0nat % (v@[0] as nat) == 0);
        assert(gcd_spec(0, v@[0] as nat) == gcd_spec(v@[0] as nat, 0));
    }
    while i < v.len()
        invariant
            1 <= i <= v@.len(),
            forall|j: int| 0 <= j < v@.len() ==> #[trigger] v@[j] >= 1,
            g == gcd_all(v@.take(i as int)),
        decreases v.len() - i,
    {
        proof {
            lemma_gcd_all(v@.take(i as int), 1);
            assert(v@.take(i + 1).drop_last() =~= v@.take(i as int));
        }
        g = gcd(g, v[i]);
        i += 1;
    }
    proof {
        assert(v@.take(v@.len() as int) =~= v@);
        lemma_gcd_all(v@, 1);
    }
    let mut w: Vec<i64> = Vec::new();
    let mut i: usize = 0;
    while i < v.len()
        invariant
            i <= v@.len(),
            w@.len() == i,
            g == gcd_all(v@),
            g > 0,
            divides_all(g as int, v@),
            forall|j: int| 0 <= j < v@.len() ==> #[trigger] v@[j] >= 1,
            forall|j: int| 0 <= j < i ==> #[trigger] w@[j] >= 1,
            forall|j: int| 0 <= j < i ==> v@[j] == #[trigger] w@[j] * g,
            forall|j: int| 0 <= j < i ==> (#[trigger] w@[j]) == v@[j] / g,
        decreases v.len() - i,
    {
        let q = v[i] / g;
        proof {
            assert(divides(g as int, v@[i as int] as int));
            lemma_divides_elim(g as int, v@[i as int] as int);
            assert(q >= 1) by (nonlinear_arith)
                requires
                    v@[i as int] == g * q,
                    v@[i as int] >= 1,
                    g > 0,
            ;
            assert(v@[i as int] == q * g) by (nonlinear_arith)
                requires
                    v@[i as int] == g * q,
            ;
        }
        w.push(q);
        i += 1;
    }
    assert(w@ =~= reduced(v@));
    proof {
        assert forall|d: int| d > 1 implies !#[trigger] divides_all(d, w@) by {
            if divides_all(d, w@) {
                assert forall|j: int| 0 <= j < v@.len() implies divides(d * g, #[trigger] v@[j] as int) by {
                    assert(divides(d, w@[j] as int));
                    lemma_divides_elim(d, w@[j] as int);
                    let k = (w@[j] as int) / d;
                    assert(v@[j] == (d * g) * k) by (nonlinear_arith)
                        requires
                            v@[j] == w@[j] * g,
                            w@[j] == d * k,
                    ;
                    assert(d * g > 0) by (nonlinear_arith)
                        requires
                            d > 1,
                            g > 0,
                    ;
                    lemma_divides_intro(d * g, v@[j] as int, k);
                }
                lemma_gcd_all(v@, d * g);
                lemma_divides_le(d * g, g as int);
                assert(false) by (nonlinear_arith)
                    requires
                        d * g <= g,
                        d > 1,
                        g > 0,
                ;
            }
        }
    }
    w
}

/// An element that occurs in none of the chemicals has no atoms on that side.
proof fn lemma_side_total_absent(chems: Seq<Chemical>, coefs: Seq<i64>, k: Seq<char>)
    requires
        !occurs_in(chems, k),
    ensures
        side_total(chems, coefs, k) == 0,
    decreases chems.len(),
{
    if chems.len() > 0 {
        let p = chems.drop_last();
        if occurs_in(p, k) {
            let a = choose|a: int| 0 <= a < p.len() && #[trigger] p[a].counts().contains_key(k);
            assert(chems[a].counts().contains_key(k));
        }
        lemma_side_total_absent(p, coefs, k);
        assert(!chems[chems.len() - 1].counts().contains_key(k));
    }
}

/// The checked sum of `coefs[i]` times the count of `k` over the first `n`
/// chemicals; `None` where a count, product or partial sum leaves `i64`.
pub open spec fn side_sum_model(chems: Seq<Chemical>, coefs: Seq<i64>, k: Seq<char>, n: int) -> Option<i64>
    decreases n,
{
    if n <= 0 {
        Some(0)
    } else {
        match side_sum_model(chems, coefs, k, n - 1) {
            None => None,
            Some(acc) => {
                let cnt = get(chems[n - 1].counts(), k) as int;
                let p = coefs[n - 1] * cnt;
                if cnt > i64::MAX || !in_i64(p) || !in_i64(acc + p) {
                    None
                } else {
                    Some((acc + p) as i64)
                }
            },
        }
    }
}

proof fn lemma_side_sum_none(chems: Seq<Chemical>, coefs: Seq<i64>, k: Seq<char>, n: int, n2: int)
    requires
        0 <= n <= n2,
        side_sum_model(chems, coefs, k, n) is None,
    ensures
        side_sum_model(chems, coefs, k, n2) is None,
    decreases n2 - n,
{
    if n < n2 {
        lemma_side_sum_none(chems, coefs, k, n, n2 - 1);
    }
}

/// Both sides' checked sums for element `k` exist and agree.
pub open spec fn sides_agree(reagents: Seq<Chemical>, products: Seq<Chemical>, v: Seq<i64>, k: Seq<char>) -> bool {
    &&& side_sum_model(reagents, v, k, reagents.len() as int) is Some
    &&& side_sum_model(reagents, v, k, reagents.len() as int) == side_sum_model(
        products,
        v.skip(reagents.len() as int),
        k,
        products.len() as int,
    )
}

/// Atoms of `key` over `chems`, with coefficients read from `coefs` at
/// `offset`; `None` on overflow.
fn side_sum(chems: &[Chemical], coefs: &Vec<i64>, offset: usize, key: &Vec<char>) -> (r: Option<i64>)
    requires
        all_wf(chems@),
        offset + chems@.len() <= coefs@.len(),
    ensures
        r matches Some(t) ==> t == side_total(chems@, coefs@.skip(offset as int), key@),
        r == side_sum_model(chems@, coefs@.skip(offset as int), key@, chems@.len() as int),
{
    let ghost cs = coefs@.skip(offset as int);
    let n = coefs.len();
    let mut total: i64 = 0;
    let mut i: usize = 0;
    while i < chems.len()
        invariant
            all_wf(chems@),
            offset + chems@.len() <= coefs@.len(),
            coefs@.len() == n,
            cs == coefs@.skip(offset as int),
            i <= chems@.len(),
            total == side_total(chems@.take(i as int), cs, key@),
            side_sum_model(chems@, cs, key@, i as int) == Some(total),
        decreases chems.len() - i,
    {
        assert(chems@[i as int].wf());
        let count = chems[i].count_of(key);
        assert(cs[i as int] == coefs@[offset + i]);
        if count > i64::MAX as u64 {
            proof {
                lemma_side_sum_none(chems@, cs, key@, i + 1, chems@.len() as int);
            }
            return None;
        }
        let term = match coefs[offset + i].checked_mul(count as i64) {
            Some(x) => x,
            None => {
                proof {
                    lemma_side_sum_none(chems@, cs, key@, i + 1, chems@.len() as int);
                }
                return None;
            },
        };
        total = match total.checked_add(term) {
            Some(x) => x,
            None => {
                proof {
                    lemma_side_sum_none(chems@, cs, key@, i + 1, chems@.len() as int);
                }
                return None;
            },
        };
        proof {
            let t = chems@.take(i + 1);
            assert(t.drop_last() =~= chems@.take(i as int));
            assert(cs[i as int] == coefs@[offset + i]);
        }
        i += 1;
    }
    assert(chems@.take(chems@.len() as int) =~= chems@);
    Some(total)
}

/// Whether coefficients `v` balance every element of `elements`, which lists
/// all elements of the reaction.
fn check_balance(
    reagents: &[Chemical],
    products: &[Chemical],
    elements: &Vec<Vec<char>>,
    v: &Vec<i64>,
) -> (r: bool)
    requires
        all_wf(reagents@),
        all_wf(products@),
        v@.len() == reagents@.len() + products@.len(),
        elements_covered(reagents@, products@),
        symbols(elements@).to_set() == reagent_elements(reagents@),
    ensures
        r ==> balances(reagents@, products@, v@),
        r == forall|t: int|
            0 <= t < elements@.len() ==> #[trigger] sides_agree(reagents@, products@, v@, elements@[t]@),
{
    let mut i: usize = 0;
    while i < elements.len()
        invariant
            forall|t: int| 0 <= t < i ==> #[trigger] sides_agree(reagents@, products@, v@, elements@[t]@),
            all_wf(reagents@),
            all_wf(products@),
            v@.len() == reagents@.len() + products@.len(),
            i <= elements@.len(),
            forall|t: int|
                0 <= t < i ==> side_total(reagents@, v@, #[trigger] elements@[t]@) == side_total(
                    products@,
                    v@.skip(reagents@.len() as int),
                    elements@[t]@,
                ),
        decreases elements.len() - i,
    {
        let left = side_sum(reagents, v, 0, &elements[i]);
        let right = side_sum(products, v, reagents.len(), &elements[i]);
        assert(v@.skip(0) =~= v@);
        match (left, right) {
            (Some(a), Some(b)) => {
                if a != b {
                    assert(!sides_agree(reagents@, products@, v@, elements@[i as int]@));
                    return false;
                }
            },
            _ => {
                assert(!sides_agree(reagents@, products@, v@, elements@[i as int]@));
                return false;
            },
        }
        assert(sides_agree(reagents@, products@, v@, elements@[i as int]@));
        i += 1;
    }
    proof {
        assert forall|k: Seq<char>| #[trigger] side_total(reagents@, v@, k) == side_total(
            products@,
            v@.skip(reagents@.len() as int),
            k,
        ) by {
            if symbols(elements@).contains(k) {
                let t = choose|t: int| 0 <= t < symbols(elements@).len() && symbols(elements@)[t] == k;
                assert(side_total(reagents@, v@, elements@[t]@) == side_total(
                    products@,
                    v@.skip(reagents@.len() as int),
                    elements@[t]@,
                ));
            } else {
                assert(!symbols(elements@).to_set().contains(k));
                assert(!reagent_elements(reagents@).contains(k));
                lemma_side_total_absent(reagents@, v@, k);
                lemma_side_total_absent(products@, v@.skip(reagents@.len() as int), k);
            }
        }
    }
    true
}

/// Every cell of the balance matrix for elements `e` fits in an `i64`.
pub open spec fn cells_fit(reagents: Seq<Chemical>, products: Seq<Chemical>, e: Seq<Seq<char>>) -> bool {
    forall|row: int, c: int|
        0 <= row < e.len() && 0 <= c < column_count(reagents, products) ==> abs(
            #[trigger] cell(reagents, products, e[row], c),
        ) <= i64::MAX
}

/// The balance matrix for elements `e`, row-major.
pub open spec fn matrix_of(reagents: Seq<Chemical>, products: Seq<Chemical>, e: Seq<Seq<char>>) -> Seq<i64> {
    let cols = column_count(reagents, products);
    Seq::new(
        (e.len() * cols) as nat,
        |i: int| cell(reagents, products, e[i / cols], i % cols) as i64,
    )
}

/// What the solver returns with the rows of the matrix in the order `e`:
/// the elimination's result divided by its gcd where every element's checked
/// sums agree, `ArithmeticInvalid` otherwise.
pub open spec fn solve_outcome(reagents: Seq<Chemical>, products: Seq<Chemical>, e: Seq<Seq<char>>) -> Result<
    Seq<i64>,
    ReactionError,
> {
    if !cells_fit(reagents, products, e) {
        Err(ReactionError::ArithmeticInvalid)
    } else {
        match gauss_model(matrix_of(reagents, products, e), column_count(reagents, products), e.len() as int) {
            None => Err(ReactionError::ArithmeticInvalid),
            Some(w) => if forall|t: int|
                0 <= t < e.len() ==> #[trigger] sides_agree(reagents, products, reduced(w), e[t]) {
                Ok(reduced(w))
            } else {
                Err(ReactionError::ArithmeticInvalid)
            },
        }
    }
}

/// `r` is the outcome `o`.
pub open spec fn outcome_is(r: Result<Vec<i64>, ReactionError>, o: Result<Seq<i64>, ReactionError>) -> bool {
    match r {
        Ok(v) => o == Ok::<Seq<i64>, ReactionError>(v@),
        Err(x) => o == Err::<Seq<i64>, ReactionError>(x),
    }
}

// ---------------------------------------------------------------------------
// The solver
// ---------------------------------------------------------------------------

/// The smallest positive integer coefficients, reagents first, that balance
/// every element of the reaction.
///
/// The rows of the matrix are the reagents' elements in order of first
/// occurrence (`element_order`); the result is `solve_outcome` for them: the
/// solution found by elimination (`gauss_model`), divided by the gcd of its
/// entries, where every element balances, and `ArithmeticInvalid` otherwise.
pub fn calculate_coefficients(reagents: &[Chemical], products: &[Chemical]) -> (r: Result<
    Vec<i64>,
    ReactionError,
>)
    requires
        forall|i: int| 0 <= i < reagents@.len() ==> #[trigger] reagents@[i].wf(),
        forall|i: int| 0 <= i < products@.len() ==> #[trigger] products@[i].wf(),
    ensures
        r == Err::<Vec<i64>, ReactionError>(ReactionError::UnbalancedElements) <==> !elements_covered(
            reagents@,
            products@,
        ),
        reagents@.len() + products@.len() > usize::MAX ==> r is Err,
        reagents@.len() + products@.len() <= usize::MAX ==> (r == Err::<Vec<i64>, ReactionError>(ReactionError::InfiniteSolution) <==> elements_covered(
            reagents@,
            products@,
        ) && (column_count(reagents@, products@) == 0 || reagent_elements(reagents@).len() + 1
            < column_count(reagents@, products@))),
        r matches Ok(v) ==> {
            &&& v@.len() == column_count(reagents@, products@)
            &&& forall|i: int| 0 <= i < v@.len() ==> #[trigger] v@[i] >= 1
            &&& balances(reagents@, products@, v@)
            &&& coprime_entries(v@)
        },
        reagents@.len() + products@.len() <= usize::MAX && elements_covered(reagents@, products@) && !(column_count(reagents@, products@) == 0
            || reagent_elements(reagents@).len() + 1 < column_count(reagents@, products@))
            ==> outcome_is(r, solve_outcome(reagents@, products@, element_order(reagents@))),
{
    let elements = match get_elements_involved(reagents, products) {
        Ok(e) => e,
        Err(e) => {
            return Err(e);
        },
    };
    proof {
        symbols(elements@).unique_seq_to_set();
    }
    let columns = match reagents.len().checked_add(products.len()) {
        Some(n) => n,
        None => {
            return Err(ReactionError::ArithmeticInvalid);
        },
    };
    if columns == 0 || elements.len() < columns - 1 {
        return Err(ReactionError::InfiniteSolution);
    }
    let ghost es = symbols(elements@);
    let ghost cols = columns as int;
    assert(es.len() == elements@.len());
    assert(forall|t: int| 0 <= t < elements@.len() ==> #[trigger] es[t] == elements@[t]@);
    let linear_system = match create_linear_equation(reagents, products, &elements) {
        Ok(m) => m,
        Err(e) => {
            proof {
                let (row, c) = choose|row: int, c: int|
                    0 <= row < elements@.len() && 0 <= c < reagents@.len() + products@.len() && abs(
                        #[trigger] cell(reagents@, products@, elements@[row]@, c),
                    ) > i64::MAX;
                assert(abs(cell(reagents@, products@, es[row], c)) > i64::MAX);
                assert(!cells_fit(reagents@, products@, es));
                assert(outcome_is(Err(e), solve_outcome(reagents@, products@, es)));
            }
            return Err(e);
        },
    };
    proof {
        let rows = elements@.len() as int;
        lemma_fundamental_div_mod_converse(rows * columns, columns as int, rows, 0);
        assert forall|row: int, c: int|
            0 <= row < es.len() && 0 <= c < cols implies abs(
                #[trigger] cell(reagents@, products@, es[row], c),
            ) <= i64::MAX by {
            assert(es[row] == elements@[row]@);
        }
        let mm = matrix_of(reagents@, products@, es);
        assert forall|i: int| 0 <= i < linear_system.matrix@.len() implies linear_system.matrix@[i] == mm[i] by {
            lemma_fundamental_div_mod(i, cols);
            let r0 = i / cols;
            let c0 = i % cols;
            assert(0 <= r0 < rows) by (nonlinear_arith)
                requires
                    i == cols * r0 + c0,
                    0 <= i < rows * cols,
                    0 <= c0 < cols,
                    cols > 0,
            ;
            assert(r0 * cols + c0 == i) by (nonlinear_arith)
                requires
                    i == cols * r0 + c0,
            ;
            assert(at(linear_system.matrix@, cols, r0, c0) == cell(reagents@, products@, elements@[r0]@, c0));
            assert(es[r0] == elements@[r0]@);
            assert(abs(cell(reagents@, products@, es[r0], c0)) <= i64::MAX);
        }
        assert(linear_system.matrix@ =~= mm);
    }
    let solution = match integer_gauss(linear_system) {
        Ok(v) => v,
        Err(e) => {
            assert(outcome_is(Err(e), solve_outcome(reagents@, products@, es)));
            return Err(e);
        },
    };
    let coefficients = reduce(solution);
    if !check_balance(reagents, products, &elements, &coefficients) {
        proof {
            let t = choose|t: int| 0 <= t < elements@.len() && !#[trigger] sides_agree(reagents@, products@, coefficients@, elements@[t]@);
            assert(!sides_agree(reagents@, products@, reduced(solution@), es[t]));
            assert(outcome_is(Err(ReactionError::ArithmeticInvalid), solve_outcome(reagents@, products@, es)));
        }
        return Err(ReactionError::ArithmeticInvalid);
    }
    proof {
        assert forall|t: int| 0 <= t < es.len() implies #[trigger] sides_agree(reagents@, products@, reduced(solution@), es[t]) by {
            assert(sides_agree(reagents@, products@, coefficients@, elements@[t]@));
        }
        assert(outcome_is(Ok(coefficients), solve_outcome(reagents@, products@, es)));
    }
    Ok(coefficients)
}

} // verus!
