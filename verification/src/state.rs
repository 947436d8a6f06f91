//! The calculator state machine.
//!
//! [`CalculatorState`] owns the in-progress entry (`current`), the accumulator
//! (`stored`), the pending operator and the most recent operator/operand pair,
//! plus a display-only rendering of the expression and a sticky fault flag.
//! Every command is a total transition: its exact effect is given by the
//! `t_*` specification functions below, and each method's contract says that
//! the new state is the transition applied to the old one.  Once the fault
//! flag is set, every command but [`CalculatorState::clear`] leaves the state
//! unchanged.

use vstd::prelude::*;

use crate::decimal::{
    dec_add_v, dec_div_v, dec_mul_v, dec_sub_v, dec_wf, lemma_pow10_pos, view_opt, Dec,
    DecV,
};
use crate::numeral::{digit_char, fmt_dec, fmt_v, lemma_fmt_len, parse_dec, parse_v, MAX_BUFFER};

verus! {

/// The four operators of the calculator.
#[derive(Clone, Copy, Debug)]
pub enum Op {
    Add,
    Sub,
    Mul,
    Div,
}

/// Longest entry the digit and decimal-point commands accept.
pub const MAX_LEN: usize = 16;

/// The calculator's whole state; see the module documentation.
pub struct CalculatorState {
    current: Vec<char>,
    stored: Dec,
    op: Option<Op>,
    last_operand: Option<Dec>,
    last_op: Option<Op>,
    expression: Vec<char>,
    error: bool,
}

/// Specification-level image of a [`CalculatorState`].
#[verifier::ext_equal]
pub ghost struct CalcV {
    pub current: Seq<char>,
    pub stored: DecV,
    pub op: Option<Op>,
    pub last_operand: Option<DecV>,
    pub last_op: Option<Op>,
    pub expression: Seq<char>,
    pub error: bool,
}

impl View for CalculatorState {
    type V = CalcV;

    closed spec fn view(&self) -> CalcV {
        CalcV {
            current: self.current@,
            stored: self.stored@,
            op: self.op,
            last_operand: match self.last_operand {
                Some(d) => Some(d@),
                None => None,
            },
            last_op: self.last_op,
            expression: self.expression@,
            error: self.error,
        }
    }
}

/// The display character of an operator.
pub open spec fn op_char(op: Op) -> char {
    match op {
        Op::Add => '+',
        Op::Sub => '-',
        Op::Mul => '×',
        Op::Div => '÷',
    }
}

/// The state of a freshly constructed or cleared calculator.
pub open spec fn fresh_v() -> CalcV {
    CalcV {
        current: Seq::empty(),
        stored: DecV { neg: false, mant: 0 as nat, scale: 0 as nat },
        op: None,
        last_operand: None,
        last_op: None,
        expression: Seq::empty(),
        error: false,
    }
}

/// The expression line shown while an entry is in progress: with a pending
/// operator, the accumulator, the operator's sign and the entry; otherwise
/// the entry alone.
pub open spec fn expr_of(op: Option<Op>, stored: DecV, cur: Seq<char>) -> Seq<char> {
    match op {
        Some(o) => fmt_v(stored) + seq![' '] + seq![op_char(o)] + seq![' '] + cur,
        None => cur,
    }
}

/// The expression line shown after an evaluation: `left op right =`.
pub open spec fn eval_expr(stored: DecV, op: Op, rhs: DecV) -> Seq<char> {
    fmt_v(stored) + seq![' '] + seq![op_char(op)] + seq![' '] + fmt_v(rhs) + seq![' '] + seq!['=']
}

/// The entry buffer stays within the display width; only a signed rendering
/// may use the last column.
pub open spec fn wf_buf(cur: Seq<char>) -> bool {
    cur.len() <= MAX_BUFFER && (cur.len() >= MAX_BUFFER ==> cur[0] == '-')
}

/// Well-formed calculator state: bounded entry buffer and well-formed numbers.
pub open spec fn wf_state(s: CalcV) -> bool {
    &&& wf_buf(s.current)
    &&& dec_wf(s.stored)
    &&& (s.last_operand matches Some(d) ==> dec_wf(d))
}

/// Applying an operator to two values; `None` is the fault outcome (division
/// by zero or an out-of-range result).
pub open spec fn apply_v(op: Op, a: DecV, b: DecV) -> Option<DecV> {
    match op {
        Op::Add => dec_add_v(a, b),
        Op::Sub => dec_sub_v(a, b),
        Op::Mul => dec_mul_v(a, b),
        Op::Div => dec_div_v(a, b),
    }
}

/// Effect of entering a digit: ignored when faulted or at the length cap; a
/// lone placeholder zero is replaced rather than extended; the expression
/// line is recomputed.
pub open spec fn t_input_digit(s: CalcV, d: nat) -> CalcV {
    if s.error || s.current.len() >= MAX_LEN as nat {
        s
    } else {
        let cur = if s.current == seq!['0'] {
            seq![digit_char(d)]
        } else {
            s.current.push(digit_char(d))
        };
        CalcV { current: cur, expression: expr_of(s.op, s.stored, cur), ..s }
    }
}

/// Effect of entering the decimal point: ignored when faulted, at the length
/// cap, or when the entry already has one; an empty entry is seeded with `0`
/// first.
pub open spec fn t_input_decimal(s: CalcV) -> CalcV {
    if s.error || s.current.len() >= MAX_LEN as nat || s.current.contains('.') {
        s
    } else {
        let cur = (if s.current.len() == 0 {
            seq!['0']
        } else {
            s.current
        }).push('.');
        CalcV { current: cur, expression: expr_of(s.op, s.stored, cur), ..s }
    }
}

/// Effect of backspace: drops the last character; an emptied entry becomes
/// `0`.
pub open spec fn t_backspace(s: CalcV) -> CalcV {
    if s.error {
        s
    } else {
        let cur = if s.current.len() <= 1 {
            seq!['0']
        } else {
            s.current.drop_last()
        };
        CalcV { current: cur, expression: expr_of(s.op, s.stored, cur), ..s }
    }
}

/// Effect of the sign toggle: a leading minus is removed, a non-zero unsigned
/// entry gains one, and `0` keeps its sign; ignored when faulted or empty.
pub open spec fn t_toggle_sign(s: CalcV) -> CalcV {
    if s.error || s.current.len() == 0 {
        s
    } else {
        let cur = if s.current[0] == '-' {
            s.current.skip(1)
        } else if s.current != seq!['0'] {
            seq!['-'] + s.current
        } else {
            s.current
        };
        CalcV { current: cur, expression: expr_of(s.op, s.stored, cur), ..s }
    }
}

/// Effect of choosing an operator: with an empty entry it replaces a pending
/// operator and is otherwise ignored; with an entry it commits the entry to
/// the accumulator, or faults on an entry that denotes no value.
pub open spec fn t_set_op(s: CalcV, op: Op) -> CalcV {
    if s.error {
        s
    } else if s.current.len() == 0 {
        if s.op is Some {
            CalcV { op: Some(op), ..s }
        } else {
            s
        }
    } else {
        match parse_v(s.current) {
            Some(d) => CalcV {
                stored: d,
                current: Seq::empty(),
                op: Some(op),
                expression: expr_of(Some(op), d, Seq::empty()),
                ..s
            },
            None => CalcV { error: true, ..s },
        }
    }
}

/// Effect of evaluate: with a pending operator the entry is the right-hand
/// operand and the pair is remembered for repeats; with none but a remembered
/// pair, that pair is re-applied to the accumulator; with neither, nothing
/// happens.  An entry that denotes no value, a division by zero or an
/// out-of-range result faults.
pub open spec fn t_evaluate(s: CalcV) -> CalcV {
    if s.error {
        s
    } else {
        match s.op {
            Some(op) => match parse_v(s.current) {
                None => CalcV { error: true, ..s },
                Some(rhs) => match apply_v(op, s.stored, rhs) {
                    None => CalcV { error: true, ..s },
                    Some(res) => CalcV {
                        current: fmt_v(res),
                        stored: res,
                        op: None,
                        last_operand: Some(rhs),
                        last_op: Some(op),
                        expression: eval_expr(s.stored, op, rhs),
                        ..s
                    },
                },
            },
            None => match (s.last_op, s.last_operand) {
                (Some(lop), Some(lod)) => match apply_v(lop, s.stored, lod) {
                    None => CalcV { error: true, ..s },
                    Some(res) => CalcV {
                        current: fmt_v(res),
                        stored: res,
                        expression: eval_expr(s.stored, lop, lod),
                        ..s
                    },
                },
                _ => s,
            },
        }
    }
}

/// Relies on `String`'s `FromIterator<char>` impl: collecting characters
/// yields the string of exactly those characters, in order.
#[verifier::external_body]
fn chars_to_string(v: &Vec<char>) -> (r: String)
    ensures
        r@ == v@,
{
    v.iter().collect()
}

fn append_chars(dst: &mut Vec<char>, src: &Vec<char>)
    ensures
        final(dst)@ == old(dst)@ + src@,
{
    let mut i: usize = 0;
    while i < src.len()
        invariant
            i <= src@.len(),
            dst@ == old(dst)@ + src@.subrange(0, i as int),
        decreases src@.len() - i,
    {
        dst.push(src[i]);
        proof {
            assert(old(dst)@ + src@.subrange(0, (i + 1) as int) =~= (old(dst)@ + src@.subrange(
                0,
                i as int,
            )).push(src@[i as int]));
        }
        i = i + 1;
    }
    proof {
        assert(src@.subrange(0, src@.len() as int) =~= src@);
    }
}

fn has_char(v: &Vec<char>, c: char) -> (b: bool)
    ensures
        b == v@.contains(c),
{
    let mut i: usize = 0;
    while i < v.len()
        invariant
            i <= v@.len(),
            forall|j: int| 0 <= j < i ==> v@[j] != c,
        decreases v@.len() - i,
    {
        if v[i] == c {
            return true;
        }
        i = i + 1;
    }
    false
}

fn op_to_char(op: Op) -> (c: char)
    ensures
        c == op_char(op),
{
    match op {
        Op::Add => '+',
        Op::Sub => '-',
        Op::Mul => '×',
        Op::Div => '÷',
    }
}

impl Default for CalculatorState {
    /// A fresh calculator: empty entry and expression, zero accumulator, no
    /// pending operator, no remembered pair, no fault.
    fn default() -> (r: Self)
        ensures
            r@ == fresh_v(),
            wf_state(r@),
    {
        proof {
            lemma_pow10_pos(16);
        }
        let r = CalculatorState {
            current: Vec::new(),
            stored: Dec { neg: false, mant: 0, scale: 0 },
            op: None,
            last_operand: None,
            last_op: None,
            expression: Vec::new(),
            error: false,
        };
        assert(r@ =~= fresh_v());
        r
    }
}

impl CalculatorState {
    /// Recomputes the expression line from the live fields.
    fn update_expression(&mut self)
        requires
            dec_wf(old(self)@.stored),
        ensures
            final(self)@ == (CalcV {
                expression: expr_of(old(self)@.op, old(self)@.stored, old(self)@.current),
                ..old(self)@
            }),
    {
        let mut e: Vec<char> = Vec::new();
        match self.op {
            Some(o) => {
                let st = fmt_dec(&self.stored);
                append_chars(&mut e, &st);
                e.push(' ');
                e.push(op_to_char(o));
                e.push(' ');
                append_chars(&mut e, &self.current);
                proof {
                    assert(e@ =~= expr_of(self@.op, self@.stored, self@.current));
                }
            },
            None => {
                append_chars(&mut e, &self.current);
            },
        }
        self.expression = e;
        assert(final(self)@ =~= (CalcV {
            expression: expr_of(old(self)@.op, old(self)@.stored, old(self)@.current),
            ..old(self)@
        }));
    }

    /// Enters one digit, `0` through `9`.
    pub fn input_digit(&mut self, digit: u8)
        requires
            digit <= 9,
            wf_state(old(self)@),
        ensures
            final(self)@ == t_input_digit(old(self)@, digit as nat),
            wf_state(final(self)@),
    {
        if self.error {
            return ;
        }
        if self.current.len() >= MAX_LEN {
            return ;
        }
        if self.current.len() == 1 && self.current[0] == '0' {
            proof {
                assert(self@.current =~= seq!['0']);
            }
            self.current.clear();
        }
        self.current.push(crate::numeral::digit_to_char(digit));
        self.update_expression();
        proof {
            assert(final(self)@ =~= t_input_digit(old(self)@, digit as nat));
        }
    }

    /// Enters the decimal point.
    pub fn input_decimal(&mut self)
        requires
            wf_state(old(self)@),
        ensures
            final(self)@ == t_input_decimal(old(self)@),
            wf_state(final(self)@),
    {
        if self.error {
            return ;
        }
        if self.current.len() >= MAX_LEN {
            return ;
        }
        if !has_char(&self.current, '.') {
            if self.current.len() == 0 {
                self.current.push('0');
            }
            self.current.push('.');
            self.update_expression();
            proof {
                assert(final(self)@ =~= t_input_decimal(old(self)@));
            }
        }
    }

    /// Removes the last character of the entry; an emptied entry shows `0`.
    pub fn backspace(&mut self)
        requires
            wf_state(old(self)@),
        ensures
            final(self)@ == t_backspace(old(self)@),
            wf_state(final(self)@),
    {
        if self.error {
            return ;
        }
        let _ = self.current.pop();
        if self.current.is_empty() {
            self.current.push('0');
        }
        self.update_expression();
        proof {
            assert(final(self)@.current =~= t_backspace(old(self)@).current);
            assert(final(self)@ =~= t_backspace(old(self)@));
        }
    }

    /// Toggles the sign of a non-empty, non-zero entry.
    pub fn toggle_sign(&mut self)
        requires
            wf_state(old(self)@),
        ensures
            final(self)@ == t_toggle_sign(old(self)@),
            wf_state(final(self)@),
    {
        if self.error || self.current.len() == 0 {
            return ;
        }
        if self.current[0] == '-' {
            self.current.remove(0);
            proof {
                assert(self@.current =~= old(self)@.current.skip(1));
            }
        } else if !(self.current.len() == 1 && self.current[0] == '0') {
            proof {
                assert(old(self)@.current != seq!['0']);
            }
            self.current.insert(0, '-');
            proof {
                assert(self@.current =~= seq!['-'] + old(self)@.current);
            }
        } else {
            proof {
                assert(old(self)@.current =~= seq!['0']);
            }
        }
        self.update_expression();
        proof {
            assert(final(self)@ =~= t_toggle_sign(old(self)@));
        }
    }

    /// Chooses an operator: commits the entry to the accumulator, or with an
    /// empty entry replaces a pending operator.
    pub fn set_op(&mut self, op: Op)
        requires
            wf_state(old(self)@),
        ensures
            final(self)@ == t_set_op(old(self)@, op),
            wf_state(final(self)@),
    {
        if self.error {
            return ;
        }
        if self.current.len() == 0 {
            if self.op.is_some() {
                self.op = Some(op);
            }
            return ;
        }
        match parse_dec(&self.current) {
            Some(d) => {
                self.stored = d;
                self.current = Vec::new();
                self.op = Some(op);
                self.update_expression();
                proof {
                    assert(final(self)@ =~= t_set_op(old(self)@, op));
                }
            },
            None => {
                self.error = true;
                proof {
                    assert(final(self)@ =~= t_set_op(old(self)@, op));
                }
            },
        }
    }

    /// Applies an operator to two values.
    fn apply_op(op: Op, a: &Dec, b: &Dec) -> (r: Option<Dec>)
        requires
            dec_wf(a@),
            dec_wf(b@),
        ensures
            view_opt(r) == apply_v(op, a@, b@),
            r matches Some(d) ==> dec_wf(d@),
    {
        match op {
            Op::Add => crate::decimal::dec_add(a, b),
            Op::Sub => crate::decimal::dec_sub(a, b),
            Op::Mul => crate::decimal::dec_mul(a, b),
            Op::Div => crate::decimal::dec_div(a, b),
        }
    }

    /// Builds the `left op right =` expression line.
    fn eval_expression(&self, op: Op, rhs: &Dec) -> (e: Vec<char>)
        requires
            dec_wf(self@.stored),
            dec_wf(rhs@),
        ensures
            e@ == eval_expr(self@.stored, op, rhs@),
    {
        let mut e = fmt_dec(&self.stored);
        e.push(' ');
        e.push(op_to_char(op));
        e.push(' ');
        let rv = fmt_dec(rhs);
        append_chars(&mut e, &rv);
        e.push(' ');
        e.push('=');
        proof {
            assert(e@ =~= eval_expr(self@.stored, op, rhs@));
        }
        e
    }

    /// Evaluates the pending operation, or repeats the last one.
    pub fn evaluate(&mut self)
        requires
            wf_state(old(self)@),
        ensures
            final(self)@ == t_evaluate(old(self)@),
            wf_state(final(self)@),
    {
        if self.error {
            return ;
        }
        match self.op {
            Some(op) => {
                match parse_dec(&self.current) {
                    Some(rhs) => {
                        match Self::apply_op(op, &self.stored, &rhs) {
                            Some(res) => {
                                proof {
                                    lemma_fmt_len(res@);
                                }
                                self.expression = self.eval_expression(op, &rhs);
                                self.current = fmt_dec(&res);
                                self.stored = res;
                                self.last_operand = Some(rhs);
                                self.last_op = Some(op);
                                self.op = None;
                                proof {
                                    assert(final(self)@ =~= t_evaluate(old(self)@));
                                }
                            },
                            None => {
                                self.error = true;
                                proof {
                                    assert(final(self)@ =~= t_evaluate(old(self)@));
                                }
                            },
                        }
                    },
                    None => {
                        self.error = true;
                        proof {
                            assert(final(self)@ =~= t_evaluate(old(self)@));
                        }
                    },
                }
            },
            None => {
                if self.last_op.is_some() && self.last_operand.is_some() {
                    let lop = self.last_op.unwrap();
                    let lod = self.last_operand.unwrap();
                    match Self::apply_op(lop, &self.stored, &lod) {
                        Some(res) => {
                            proof {
                                lemma_fmt_len(res@);
                            }
                            self.expression = self.eval_expression(lop, &lod);
                            self.current = fmt_dec(&res);
                            self.stored = res;
                            proof {
                                assert(final(self)@ =~= t_evaluate(old(self)@));
                            }
                        },
                        None => {
                            self.error = true;
                            proof {
                                assert(final(self)@ =~= t_evaluate(old(self)@));
                            }
                        },
                    }
                }
            },
        }
    }

    /// Resets the whole state, fault included; the one command that always
    /// takes effect.
    pub fn clear(&mut self)
        ensures
            final(self)@ == fresh_v(),
            wf_state(final(self)@),
    {
        *self = CalculatorState::default();
    }

    /// The entry buffer as text, for display.
    pub fn current_text(&self) -> (r: String)
        ensures
            r@ == self@.current,
    {
        chars_to_string(&self.current)
    }

    /// The expression line as text, for display.
    pub fn expression_text(&self) -> (r: String)
        ensures
            r@ == self@.expression,
    {
        chars_to_string(&self.expression)
    }

    /// Whether the sticky fault is set.
    pub fn error(&self) -> (r: bool)
        ensures
            r == self@.error,
    {
        self.error
    }
}

} // verus!
