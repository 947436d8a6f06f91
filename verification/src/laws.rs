//! Laws of the calculator, stated over the transition functions and proved
//! once and for all.
//!
//! Each proof function here is a property of the state machine itself: typing
//! digits after a clear yields exactly those digits, the entry never outgrows
//! its cap, a second decimal point and an operator chosen too early change
//! nothing, the sign toggle undoes itself, a zero divisor faults, and a zero
//! factor yields `0`.

use vstd::prelude::*;

use crate::decimal::{dec_div_v, lemma_fix_zero, num_v, DecV};
use crate::numeral::{digit_char, digits_of, fmt_v, parse_v};
use crate::state::{
    apply_v, expr_of, fresh_v, t_evaluate, t_input_decimal, t_input_digit, t_set_op,
    t_toggle_sign, CalcV, Op, MAX_LEN,
};

verus! {

/// The state after typing a sequence of digits, one by one.
pub open spec fn run_digits(s: CalcV, ds: Seq<nat>) -> CalcV
    decreases ds.len(),
{
    if ds.len() == 0 {
        s
    } else {
        run_digits(t_input_digit(s, ds.first()), ds.drop_first())
    }
}

/// Typing digits extends a non-placeholder entry literally, as long as the
/// cap is not reached, and raises no fault.
proof fn lemma_run_digits_extends(s: CalcV, ds: Seq<nat>)
    requires
        !s.error,
        1 <= s.current.len(),
        s.current.len() + ds.len() <= MAX_LEN as nat,
        s.current != seq!['0'],
    ensures
        run_digits(s, ds).current == s.current + ds.map_values(|d: nat| digit_char(d)),
        run_digits(s, ds).error == s.error,
    decreases ds.len(),
{
    if ds.len() == 0 {
        assert(s.current + ds.map_values(|d: nat| digit_char(d)) =~= s.current);
    } else {
        let s1 = t_input_digit(s, ds.first());
        assert(s1.current == s.current.push(digit_char(ds.first())));
        lemma_run_digits_extends(s1, ds.drop_first());
        assert(s.current + ds.map_values(|d: nat| digit_char(d)) =~= s1.current
            + ds.drop_first().map_values(|d: nat| digit_char(d)));
    }
}

/// After a clear, a digit sequence within the cap that does not start with a
/// placeholder zero is shown literally.
pub proof fn lemma_digit_entry_literal(ds: Seq<nat>)
    requires
        1 <= ds.len() <= MAX_LEN as nat,
        ds[0] != 0,
    ensures
        run_digits(fresh_v(), ds).current == ds.map_values(|d: nat| digit_char(d)),
        !run_digits(fresh_v(), ds).error,
{
    let s1 = t_input_digit(fresh_v(), ds.first());
    assert(s1.current =~= seq![digit_char(ds.first())]);
    assert(digit_char(ds.first()) != '0');
    assert(s1.current[0] == digit_char(ds.first()));
    assert(seq!['0'][0] == '0');
    lemma_run_digits_extends(s1, ds.drop_first());
    assert(s1.current + ds.drop_first().map_values(|d: nat| digit_char(d)) =~= ds.map_values(
        |d: nat| digit_char(d),
    ));
}

/// However many digits are typed, the entry never outgrows the cap and digit
/// entry alone never raises a fault.
pub proof fn lemma_digit_entry_bounded(s: CalcV, ds: Seq<nat>)
    requires
        s.current.len() <= MAX_LEN as nat,
    ensures
        run_digits(s, ds).current.len() <= MAX_LEN as nat,
        run_digits(s, ds).error == s.error,
    decreases ds.len(),
{
    if ds.len() > 0 {
        lemma_digit_entry_bounded(t_input_digit(s, ds.first()), ds.drop_first());
    }
}

/// From an entry showing the placeholder `0`, typed zeros keep showing `0`
/// and the first non-zero digit starts a literal entry.
proof fn lemma_zeros_then_digits(s: CalcV, zs: Seq<nat>, ds: Seq<nat>)
    requires
        !s.error,
        s.current == seq!['0'],
        forall|i: int| 0 <= i < zs.len() ==> zs[i] == 0,
        1 <= ds.len() <= MAX_LEN as nat,
        ds[0] != 0,
    ensures
        run_digits(s, zs + ds).current == ds.map_values(|d: nat| digit_char(d)),
        !run_digits(s, zs + ds).error,
    decreases zs.len(),
{
    if zs.len() == 0 {
        assert(zs + ds =~= ds);
        let s1 = t_input_digit(s, ds.first());
        assert(s1.current =~= seq![digit_char(ds.first())]);
        assert(digit_char(ds.first()) != '0');
        assert(seq!['0'][0] == '0');
        lemma_run_digits_extends(s1, ds.drop_first());
        assert(s1.current + ds.drop_first().map_values(|d: nat| digit_char(d)) =~= ds.map_values(
            |d: nat| digit_char(d),
        ));
    } else {
        assert((zs + ds).first() == zs[0]);
        let s1 = t_input_digit(s, 0);
        assert(s1.current =~= seq!['0']);
        assert((zs + ds).drop_first() =~= zs.drop_first() + ds);
        lemma_zeros_then_digits(s1, zs.drop_first(), ds);
    }
}

/// The leading placeholder zero is replaced, not prefixed: after a clear, any
/// run of zeros followed by digits within the cap shows the digits literally.
pub proof fn lemma_leading_zeros_replaced(zs: Seq<nat>, ds: Seq<nat>)
    requires
        1 <= zs.len(),
        forall|i: int| 0 <= i < zs.len() ==> zs[i] == 0,
        1 <= ds.len() <= MAX_LEN as nat,
        ds[0] != 0,
    ensures
        run_digits(fresh_v(), zs + ds).current == ds.map_values(|d: nat| digit_char(d)),
        !run_digits(fresh_v(), zs + ds).error,
{
    let s1 = t_input_digit(fresh_v(), zs.first());
    assert(s1.current =~= seq!['0']);
    assert((zs + ds).first() == zs[0]);
    assert((zs + ds).drop_first() =~= zs.drop_first() + ds);
    lemma_zeros_then_digits(s1, zs.drop_first(), ds);
}

/// The remembered operator/operand pair persists across repeated evaluations:
/// a repeat applies it to the accumulator and keeps it for further repeats.
pub proof fn lemma_repeat_keeps_pair(s: CalcV)
    requires
        !s.error,
        s.op is None,
        s.last_op is Some,
        s.last_operand is Some,
    ensures
        t_evaluate(s).last_op == s.last_op,
        t_evaluate(s).last_operand == s.last_operand,
        t_evaluate(s).op is None,
        apply_v(s.last_op.unwrap(), s.stored, s.last_operand.unwrap()) matches Some(res) ==> {
            &&& t_evaluate(s).stored == res
            &&& t_evaluate(s).current == fmt_v(res)
            &&& !t_evaluate(s).error
        },
        apply_v(s.last_op.unwrap(), s.stored, s.last_operand.unwrap()) is None ==> t_evaluate(
            s,
        ).error,
{
}

/// A second decimal point in the same entry changes nothing at all.
pub proof fn lemma_second_decimal_noop(s: CalcV)
    requires
        s.current.contains('.'),
    ensures
        t_input_decimal(s) == s,
{
}

/// Toggling the sign of the placeholder `0` leaves the entry, and every
/// field but the recomputed expression line, unchanged.
pub proof fn lemma_toggle_zero(s: CalcV)
    requires
        !s.error,
        s.current == seq!['0'],
    ensures
        t_toggle_sign(s) == (CalcV { expression: expr_of(s.op, s.stored, s.current), ..s }),
{
    assert(s.current[0] == '0');
}

/// The sign toggle undoes itself: toggling twice restores the entry and every
/// other field, the expression line being recomputed from the same entry.
/// The placeholder `0` is excluded (toggling it is a no-op), and a signed
/// entry must not reduce to `0` or to a second sign, which no reachable entry
/// does.
pub proof fn lemma_toggle_twice(s: CalcV)
    requires
        !s.error,
        s.current.len() > 0,
        s.current != seq!['0'],
        s.current[0] == '-' ==> s.current.len() >= 2 && s.current.skip(1) != seq!['0']
            && s.current[1] != '-',
    ensures
        t_toggle_sign(t_toggle_sign(s)) == (CalcV {
            expression: expr_of(s.op, s.stored, s.current),
            ..s
        }),
{
    let s1 = t_toggle_sign(s);
    if s.current[0] == '-' {
        assert(s1.current == s.current.skip(1));
        assert(s1.current[0] == s.current[1]);
        assert(t_toggle_sign(s1).current =~= seq!['-'] + s.current.skip(1));
        assert(seq!['-'] + s.current.skip(1) =~= s.current);
    } else {
        assert(s1.current == seq!['-'] + s.current);
        assert(s1.current[0] == '-');
        assert(t_toggle_sign(s1).current =~= (seq!['-'] + s.current).skip(1));
        assert((seq!['-'] + s.current).skip(1) =~= s.current);
    }
    assert(t_toggle_sign(t_toggle_sign(s)) =~= (CalcV {
        expression: expr_of(s.op, s.stored, s.current),
        ..s
    }));
}

/// Choosing an operator with an empty entry and no pending operator changes
/// nothing at all.
pub proof fn lemma_set_op_early_noop(s: CalcV, op: Op)
    requires
        !s.error,
        s.current.len() == 0,
        s.op is None,
    ensures
        t_set_op(s, op) == s,
{
}

/// Evaluating with neither a pending operator nor a remembered pair changes
/// nothing at all: the deliberate policy for a bare evaluate.
pub proof fn lemma_evaluate_without_history_noop(s: CalcV)
    requires
        !s.error,
        s.op is None,
        s.last_op is None || s.last_operand is None,
    ensures
        t_evaluate(s) == s,
{
}

/// Evaluating a pending division whose right-hand operand is zero sets the
/// fault flag and changes nothing else.
pub proof fn lemma_divide_by_zero_faults(s: CalcV)
    requires
        !s.error,
        s.op == Some(Op::Div),
        parse_v(s.current) matches Some(rhs) && rhs.mant == 0,
    ensures
        t_evaluate(s) == (CalcV { error: true, ..s }),
{
    let rhs = parse_v(s.current).unwrap();
    assert(dec_div_v(s.stored, rhs) == None::<DecV>);
}

/// Evaluating a pending multiplication whose right-hand operand is zero shows
/// exactly `0` and raises no fault.
pub proof fn lemma_multiply_by_zero(s: CalcV)
    requires
        !s.error,
        s.op == Some(Op::Mul),
        parse_v(s.current) matches Some(rhs) && rhs.mant == 0,
    ensures
        t_evaluate(s).current == seq!['0'],
        !t_evaluate(s).error,
{
    let rhs = parse_v(s.current).unwrap();
    assert(num_v(rhs) == 0);
    assert(num_v(s.stored) * num_v(rhs) == 0) by (nonlinear_arith)
        requires
            num_v(rhs) == 0,
    ;
    lemma_fix_zero(num_v(s.stored) * num_v(rhs) < 0, s.stored.scale + rhs.scale);
    let res = apply_v(Op::Mul, s.stored, rhs).unwrap();
    assert(res == DecV { neg: false, mant: 0 as nat, scale: 0 as nat });
    assert(fmt_v(res) == digits_of(0));
    assert(digits_of(0) =~= seq!['0']);
}

} // verus!
