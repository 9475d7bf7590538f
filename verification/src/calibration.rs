//! Calibration equations: a target value and a list of operands,
//! combined left to right with addition, multiplication and —
//! optionally — decimal concatenation, searched recursively with the
//! running value pruned as soon as it overshoots the target.

use crate::tokens::pow10;
use vstd::prelude::*;

verus! {

/// A calibration equation: the value the operators should produce,
/// and the operands in order.
#[derive(Debug)]
pub struct Equation {
    pub expected_result: u64,
    pub equation_elements: Vec<u64>,
}

/// How many decimal digits the number has.
pub open spec fn digits10(b: int) -> nat
    decreases b when b >= 0
{
    if b < 10 {
        1
    } else {
        1 + digits10(b / 10)
    }
}

/// Decimal concatenation: `a` followed by the digits of `b`.
pub open spec fn concat10(a: int, b: int) -> int {
    a * pow10(digits10(b)) + b
}

/// The target is reachable from the running value `acc` using the
/// remaining operands with `+` and `*`, under the solver's pruning:
/// a running value past the target is abandoned, although a zero
/// operand could still bring it back down.
pub open spec fn reach1(target: int, acc: int, elems: Seq<u64>, i: int) -> bool
    decreases elems.len() - i when 0 <= i <= elems.len()
{
    if i >= elems.len() {
        acc == target
    } else if acc > target {
        false
    } else {
        reach1(target, acc + elems[i], elems, i + 1) || reach1(
            target,
            acc * elems[i],
            elems,
            i + 1,
        )
    }
}

/// The target is reachable using `||` (concatenation), `+` and `*`,
/// with the same pruning.
pub open spec fn reach2(target: int, acc: int, elems: Seq<u64>, i: int) -> bool
    decreases elems.len() - i when 0 <= i <= elems.len()
{
    if i >= elems.len() {
        acc == target
    } else if acc > target {
        false
    } else {
        reach2(target, concat10(acc, elems[i] as int), elems, i + 1) || reach2(
            target,
            acc + elems[i],
            elems,
            i + 1,
        ) || reach2(target, acc * elems[i], elems, i + 1)
    }
}

/// Powers of ten are at least one.
proof fn lemma_pow10_pos(n: nat)
    ensures
        pow10(n) >= 1,
    decreases n,
{
    if n > 0 {
        lemma_pow10_pos((n - 1) as nat);
    }
}

/// Ten to the number's digit count, or `None` when it leaves the
/// unsigned 64-bit range.
fn pow10_of_digits(e: u64) -> (r: Option<u64>)
    ensures
        r matches Some(p) ==> p == pow10(digits10(e as int)),
        r is None ==> pow10(digits10(e as int)) > u64::MAX,
{
    let mut multiplier: u64 = 10;
    let mut n: u64 = e / 10;
    proof {
        assert(pow10(0) == 1);
        assert(pow10(1) == 10);
        if e < 10 {
            assert(digits10(e as int) == 1);
        } else {
            assert(digits10(e as int) == 1 + digits10(e as int / 10));
            assert(pow10(digits10(e as int)) == 10 * pow10(digits10(e as int / 10)));
        }
    }
    #[verifier::loop_isolation(false)]
    while n > 0
        invariant
            n >= 0,
            multiplier >= 10,
            n == 0 ==> multiplier == pow10(digits10(e as int)),
            n > 0 ==> pow10(digits10(e as int)) == multiplier * pow10(digits10(n as int)),
        decreases n,
    {
        let ghost mprev = multiplier as int;
        let ghost nprev = n as int;
        let next = match multiplier.checked_mul(10) {
            Some(m) => m,
            None => {
                proof {
                    lemma_pow10_pos(digits10(n as int));
                    assert(pow10(digits10(e as int)) >= mprev * 10) by (nonlinear_arith)
                        requires
                            pow10(digits10(e as int)) == mprev * pow10(digits10(nprev)),
                            pow10(digits10(nprev)) >= 10,
                            mprev >= 10,
                    ;
                }
                return None;
            },
        };
        multiplier = next;
        n = n / 10;
        proof {
            assert(pow10(0) == 1);
        assert(pow10(1) == 10);
            if nprev < 10 {
                assert(digits10(nprev) == 1);
                assert(pow10(digits10(e as int)) == mprev * 10);
            } else {
                assert(digits10(nprev) == 1 + digits10(nprev / 10));
                assert(pow10(digits10(nprev)) == 10 * pow10(digits10(nprev / 10)));
                assert(mprev * (10 * pow10(digits10(nprev / 10))) == (mprev * 10) * pow10(
                    digits10(nprev / 10),
                )) by (nonlinear_arith);
            }
        }
    }
    Some(multiplier)
}

/// Whether the target is reachable from `result_so_far` using the
/// operands from `from` on with `+` and `*`, pruning a running value
/// past the target.
pub fn recursive_fn_part1(
    test_result: u64,
    result_so_far: u64,
    remaining_components: &Vec<u64>,
    from: usize,
) -> (r: bool)
    requires
        from <= remaining_components@.len(),
    ensures
        r == reach1(test_result as int, result_so_far as int, remaining_components@, from as int),
    decreases remaining_components@.len() - from,
{
    if from == remaining_components.len() {
        return result_so_far == test_result;
    }
    if result_so_far > test_result {
        return false;
    }
    let element = remaining_components[from];
    let added = match result_so_far.checked_add(element) {
        Some(v) => recursive_fn_part1(test_result, v, remaining_components, from + 1),
        None => {
            proof {
                assert(!reach1(
                    test_result as int,
                    result_so_far as int + element as int,
                    remaining_components@,
                    from as int + 1,
                ));
            }
            false
        },
    };
    if added {
        return true;
    }
    let multiplied = match result_so_far.checked_mul(element) {
        Some(v) => recursive_fn_part1(test_result, v, remaining_components, from + 1),
        None => {
            proof {
                assert(!reach1(
                    test_result as int,
                    result_so_far as int * element as int,
                    remaining_components@,
                    from as int + 1,
                ));
            }
            false
        },
    };
    multiplied
}

/// Whether the target is reachable from `result_so_far` using the
/// operands from `from` on with concatenation, `+` and `*`, pruning a
/// running value past the target.
#[verifier::rlimit(60)]
pub fn recursive_fn_part2(
    test_result: u64,
    result_so_far: u64,
    remaining_components: &Vec<u64>,
    from: usize,
) -> (r: bool)
    requires
        from <= remaining_components@.len(),
    ensures
        r == reach2(test_result as int, result_so_far as int, remaining_components@, from as int),
    decreases remaining_components@.len() - from,
{
    if from == remaining_components.len() {
        return result_so_far == test_result;
    }
    if result_so_far > test_result {
        return false;
    }
    let element = remaining_components[from];
    let concatenated_value: Option<u64> = match pow10_of_digits(element) {
        Some(m) => match result_so_far.checked_mul(m) {
            Some(v) => v.checked_add(element),
            None => {
                proof {
                    assert(result_so_far as int * m as int >= m) by (nonlinear_arith)
                        requires
                            result_so_far as int * m as int > u64::MAX,
                            m >= 0,
                            result_so_far >= 0,
                    ;
                }
                None
            },
        },
        None => {
            if result_so_far == 0 {
                proof {
                    assert(0 * pow10(digits10(element as int)) == 0) by (nonlinear_arith);
                    assert(element as int == concat10(0, element as int));
                }
                Some(element)
            } else {
                proof {
                    lemma_pow10_pos(digits10(element as int));
                    assert(result_so_far as int * pow10(digits10(element as int)) >= pow10(
                        digits10(element as int),
                    )) by (nonlinear_arith)
                        requires
                            result_so_far >= 1,
                            pow10(digits10(element as int)) >= 1,
                    ;
                }
                None
            }
        },
    };
    proof {
        assert(concatenated_value matches Some(v) ==> v as int == concat10(
            result_so_far as int,
            element as int,
        ));
    }
    let concatenated = match concatenated_value {
        Some(v) => recursive_fn_part2(test_result, v, remaining_components, from + 1),
        None => {
            proof {
                assert(concat10(result_so_far as int, element as int) > u64::MAX);
                assert(!reach2(
                    test_result as int,
                    concat10(result_so_far as int, element as int),
                    remaining_components@,
                    from as int + 1,
                ));
            }
            false
        },
    };
    if concatenated {
        return true;
    }
    let added = match result_so_far.checked_add(element) {
        Some(v) => recursive_fn_part2(test_result, v, remaining_components, from + 1),
        None => {
            proof {
                assert(!reach2(
                    test_result as int,
                    result_so_far as int + element as int,
                    remaining_components@,
                    from as int + 1,
                ));
            }
            false
        },
    };
    if added {
        return true;
    }
    let multiplied = match result_so_far.checked_mul(element) {
        Some(v) => recursive_fn_part2(test_result, v, remaining_components, from + 1),
        None => {
            proof {
                assert(!reach2(
                    test_result as int,
                    result_so_far as int * element as int,
                    remaining_components@,
                    from as int + 1,
                ));
            }
            false
        },
    };
    proof {
        assert(concatenated == reach2(
            test_result as int,
            concat10(result_so_far as int, element as int),
            remaining_components@,
            from as int + 1,
        ));
        assert(added == reach2(
            test_result as int,
            result_so_far as int + element as int,
            remaining_components@,
            from as int + 1,
        ));
        assert(multiplied == reach2(
            test_result as int,
            result_so_far as int * element as int,
            remaining_components@,
            from as int + 1,
        ));
    }
    multiplied
}

/// The equation's target is reachable from its first operand.
pub open spec fn equation_solvable(eq: Equation, concat_allowed: bool) -> bool {
    if concat_allowed {
        reach2(eq.expected_result as int, eq.equation_elements@[0] as int, eq.equation_elements@, 1)
    } else {
        reach1(eq.expected_result as int, eq.equation_elements@[0] as int, eq.equation_elements@, 1)
    }
}

/// The sum of the targets of the solvable equations from `i` on.
pub open spec fn solvable_total(eqs: Seq<Equation>, concat_allowed: bool, i: int) -> int
    decreases eqs.len() - i when 0 <= i <= eqs.len()
{
    if i >= eqs.len() {
        0
    } else {
        (if equation_solvable(eqs[i], concat_allowed) {
            eqs[i].expected_result as int
        } else {
            0
        }) + solvable_total(eqs, concat_allowed, i + 1)
    }
}

/// The solvable total is never negative.
proof fn lemma_solvable_total_nonneg(eqs: Seq<Equation>, concat_allowed: bool, i: int)
    requires
        0 <= i <= eqs.len(),
    ensures
        solvable_total(eqs, concat_allowed, i) >= 0,
    decreases eqs.len() - i,
{
    if i < eqs.len() {
        lemma_solvable_total_nonneg(eqs, concat_allowed, i + 1);
    }
}

/// Sums the targets of the equations whose target is reachable from
/// their operands.  `None` when the sum leaves the unsigned 64-bit
/// range.
pub fn sum_valid_equations(equations: &Vec<Equation>, concat_allowed: bool) -> (r: Option<u64>)
    requires
        forall|i: int| 0 <= i < equations@.len() ==> (#[trigger] equations@[i]).equation_elements@.len() >= 1,
    ensures
        solvable_total(equations@, concat_allowed, 0) <= u64::MAX ==> r == Some(
            solvable_total(equations@, concat_allowed, 0) as u64,
        ),
        solvable_total(equations@, concat_allowed, 0) > u64::MAX ==> r is None,
{
    let mut i: usize = 0;
    let mut total: u64 = 0;
    let ghost mut done: int = 0;

    #[verifier::loop_isolation(false)]
    while i < equations.len()
        invariant
            0 <= i <= equations@.len(),
            done >= 0,
            total == done,
            solvable_total(equations@, concat_allowed, 0) == done + solvable_total(
                equations@,
                concat_allowed,
                i as int,
            ),
        decreases equations@.len() - i,
    {
        proof {
            lemma_solvable_total_nonneg(equations@, concat_allowed, i as int + 1);
        }
        let equation = &equations[i];
        let first = equation.equation_elements[0];
        let solvable = if concat_allowed {
            recursive_fn_part2(equation.expected_result, first, &equation.equation_elements, 1)
        } else {
            recursive_fn_part1(equation.expected_result, first, &equation.equation_elements, 1)
        };
        if solvable {
            total = match total.checked_add(equation.expected_result) {
                Some(t) => t,
                None => {
                    return None;
                },
            };
            proof {
                done = done + equation.expected_result;
            }
        }
        i = i + 1;
    }
    Some(total)
}

} // verus!
