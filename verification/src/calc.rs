use vstd::prelude::*;
use crate::num::{
    fix_div, fix_int, fix_mul, lemma_pow10_pos, lemma_tdiv_bound, lemma_tmod_bound, pow10,
    sat_i64, spec_factorial, tdiv, tmod, wrap_i64, Num, NumError,
};
use crate::series::{cos_spec, lemma_rsqrt_unique, rsqrt, sin_spec};

verus! {

/// One key of the calculator's pad.
#[derive(Clone, Copy, Debug, PartialEq, Eq, Structural)]
pub enum Key {
    Blank,
    Num(u8),
    Dot,
    BinOp(BinOp),
    UnOp(UnOp),
    Const(Const),
    Result,
    Delete,
    Clear,
    Reset,
}

/// A pending operator.
#[derive(Clone, Copy, Debug, PartialEq, Eq, Structural)]
pub enum Op {
    BinOp(BinOp),
    UnOp(UnOp),
}

#[derive(Clone, Copy, Debug, PartialEq, Eq, Structural)]
pub enum BinOp {
    Add,
    Sub,
    Mul,
    Div,
}

#[derive(Clone, Copy, Debug, PartialEq, Eq, Structural)]
pub enum UnOp {
    Neg,
    Sqrt,
    Pow2,
    Pow3,
    Factorial,
    Sin,
    Cos,
    Tan,
}

#[derive(Clone, Copy, Debug, PartialEq, Eq, Structural)]
pub enum Const {
    Pi,
    Tau,
    Phi,
    EGamma,
    Sqrt2,
    E,
}

/// Why the calculator refused a step.
#[derive(Clone, Copy, Debug, PartialEq, Eq, Structural)]
pub enum CalcError {
    /// A result was demanded while no operator was pending.
    Calc,
    /// The pending operator's numeric engine reported a domain error.
    Num(NumError),
}

/// The raw value of a named constant at `f` fractional digits.
pub open spec fn const_raw(c: Const, f: nat) -> int {
    match c {
        Const::Pi => Num::two_part_raw(3, 1415926535897932384, f),
        Const::Tau => Num::two_part_raw(6, 2831853071795864769, f),
        Const::Phi => Num::two_part_raw(1, 6180339887498948482, f),
        Const::EGamma => Num::two_part_raw(0, 5772156649015328606, f),
        Const::Sqrt2 => Num::two_part_raw(1, 4142135623730950488, f),
        Const::E => Num::two_part_raw(2, 7182818284590452353, f),
    }
}

/// The raw result of a binary operator, or its domain error.
pub open spec fn bin_result(op: BinOp, a: Num, b: Num) -> Result<int, NumError> {
    let s = a.scale();
    match op {
        BinOp::Add => Ok(wrap_i64(a.raw_spec() + b.raw_spec())),
        BinOp::Sub => Ok(wrap_i64(a.raw_spec() - b.raw_spec())),
        BinOp::Mul => Ok(fix_mul(a.raw_spec() as int, b.raw_spec() as int, s)),
        BinOp::Div => if b.raw_spec() == 0 {
            Err(NumError::DivisionByZero)
        } else {
            Ok(fix_div(a.raw_spec() as int, b.raw_spec() as int, s))
        },
    }
}

/// The raw result of a unary operator, or its domain error.
pub open spec fn un_result(op: UnOp, a: Num) -> Result<int, NumError> {
    let s = a.scale();
    let f = a.frac_spec() as nat;
    let w = a.work_spec() as nat;
    let raw = a.raw_spec() as int;
    match op {
        UnOp::Neg => Ok(wrap_i64(-raw)),
        UnOp::Sqrt => if raw < 0 {
            Err(NumError::NegativeSquareRoot)
        } else {
            Ok(rsqrt(raw * s))
        },
        UnOp::Pow2 => Ok(fix_mul(raw, raw, s)),
        UnOp::Pow3 => Ok(fix_mul(fix_mul(raw, raw, s), raw, s)),
        UnOp::Factorial => if raw < 0 || tmod(raw, s) != 0 {
            Err(NumError::NegativeOrNonIntegerFactorial)
        } else if tdiv(raw, s) > 20 {
            Err(NumError::FactorialOverflow)
        } else {
            Ok(sat_i64(spec_factorial(tdiv(raw, s) as nat) * s))
        },
        UnOp::Sin => Ok(sin_spec(raw, f, w)),
        UnOp::Cos => Ok(cos_spec(raw, f, w)),
        UnOp::Tan => if cos_spec(raw, f, w) == 0 {
            Err(NumError::DivisionByZero)
        } else {
            Ok(fix_div(sin_spec(raw, f, w), cos_spec(raw, f, w), s))
        },
    }
}

/// The calculator input state machine: two operands, an optional pending
/// operator, and the decimal-entry mode.
pub struct Calculator {
    a: Num,
    op: Option<Op>,
    b: Num,
    frac: bool,
    frac_digits: u8,
}

impl Calculator {
    pub closed spec fn a_spec(self) -> Num {
        self.a
    }

    pub closed spec fn op_spec(self) -> Option<Op> {
        self.op
    }

    pub closed spec fn b_spec(self) -> Num {
        self.b
    }

    pub closed spec fn in_frac(self) -> bool {
        self.frac
    }

    pub closed spec fn digits_spec(self) -> u8 {
        self.frac_digits
    }

    /// The operands stay well formed at an engine-ready precision pair
    /// (visible digits no more than working ones), share one precision, and
    /// the count of entered fractional digits never exceeds the visible
    /// precision.
    pub open spec fn wf(self) -> bool {
        &&& self.a_spec().wf()
        &&& self.a_spec().frac_spec() <= self.a_spec().work_spec()
        &&& self.a_spec().same_prec(self.b_spec())
        &&& self.digits_spec() <= self.a_spec().frac_spec()
    }

    /// The operand the next digit lands in: the first while no operator is
    /// pending, the second afterwards.
    pub open spec fn cur(self) -> Num {
        if self.op_spec() is None {
            self.a_spec()
        } else {
            self.b_spec()
        }
    }

    /// The untouched fields, the entry target set to the given raw value.
    pub open spec fn cur_set(self, next: Calculator, v: int) -> bool {
        &&& next.op_spec() == self.op_spec()
        &&& if self.op_spec() is None {
            &&& next.a_spec().raw_spec() as int == v
            &&& next.a_spec().same_prec(self.a_spec())
            &&& next.b_spec() == self.b_spec()
        } else {
            &&& next.b_spec().raw_spec() as int == v
            &&& next.b_spec().same_prec(self.b_spec())
            &&& next.a_spec() == self.a_spec()
        }
    }

    /// What the machine demands before an operator may run: the two inputs
    /// on which the engine's division or square root would overflow the
    /// machine itself are excluded.
    pub open spec fn op_requires(self, op: Op) -> bool {
        let a = self.a_spec();
        let f = a.frac_spec() as nat;
        let w = a.work_spec() as nat;
        match op {
            Op::BinOp(BinOp::Div) => !a.div_overflows(self.b_spec()),
            Op::UnOp(UnOp::Sqrt) => a.raw_spec() > 0 ==> a.raw_spec() * a.scale() <= i64::MAX,
            Op::UnOp(UnOp::Tan) => cos_spec(a.raw_spec() as int, f, w) == -1 ==> wrap_i64(
                sin_spec(a.raw_spec() as int, f, w) * a.scale(),
            ) != i64::MIN,
            _ => true,
        }
    }

    /// A fresh calculator at the given precision: both operands zero, no
    /// operator, integer entry mode.
    pub fn new(frac: u8, work: u8) -> (r: Calculator)
        requires
            frac <= work <= 18,
        ensures
            r.wf(),
            r.a_spec().raw_spec() == 0,
            r.a_spec().frac_spec() == frac,
            r.a_spec().work_spec() == work,
            r.op_spec() is None,
            r.b_spec().raw_spec() == 0,
            r.b_spec().frac_spec() == frac,
            r.b_spec().work_spec() == work,
            !r.in_frac(),
            r.digits_spec() == 0,
    {
        Calculator {
            a: Num::zero(frac, work),
            op: None,
            b: Num::zero(frac, work),
            frac: false,
            frac_digits: 0,
        }
    }

    /// Whether feeding this key now meets every demand `handle_input`
    /// makes: digit keys carry a decimal digit, and a pending or incoming
    /// operator finds operands its machine arithmetic can take.
    pub fn key_allowed(&self, key: Key) -> (r: bool)
        requires
            self.wf(),
        ensures
            r == match key {
                Key::Num(n) => n <= 9,
                Key::UnOp(u) => self.op_requires(Op::UnOp(u)),
                Key::Result => match self.op_spec() {
                    Some(op) => self.op_requires(op),
                    None => true,
                },
                _ => true,
            },
    {
        match key {
            Key::Num(n) => n <= 9,
            Key::UnOp(u) => self.one_op_allowed(Op::UnOp(u)),
            Key::Result => match self.op {
                Some(op) => self.one_op_allowed(op),
                None => true,
            },
            _ => true,
        }
    }

    /// Whether the operand state meets one operator's machine demands.
    fn one_op_allowed(&self, op: Op) -> (r: bool)
        requires
            self.wf(),
        ensures
            r == self.op_requires(op),
    {
        let s = crate::num::pow10_exec(self.a.frac());
        match op {
            Op::BinOp(BinOp::Div) => {
                if self.b.raw() != -1 {
                    true
                } else {
                    let p = self.a.raw().wrapping_mul(s);
                    proof {
                        crate::num::lemma_crop_is_wrap(self.a.raw_spec() as int * s as int);
                    }
                    p != i64::MIN
                }
            },
            Op::UnOp(UnOp::Sqrt) => {
                if self.a.raw() <= 0 {
                    true
                } else {
                    self.a.raw().checked_mul(s).is_some()
                }
            },
            Op::UnOp(UnOp::Tan) => {
                let c = self.a.cos();
                if c.raw() != -1 {
                    true
                } else {
                    let p = self.a.sin().raw().wrapping_mul(s);
                    proof {
                        crate::num::lemma_crop_is_wrap(
                            sin_spec(
                                self.a.raw_spec() as int,
                                self.a.frac_spec() as nat,
                                self.a.work_spec() as nat,
                            ) * s as int,
                        );
                    }
                    p != i64::MIN
                }
            },
            _ => true,
        }
    }

    /// Feed one key to the machine. Digits accumulate into the entry
    /// operand by a shift or at the next fractional place; the dot switches
    /// the entry mode; an operator key records the operator, and a unary
    /// one or the result key runs it at once; delete drops the last entered
    /// digit; clear and reset wipe the entry or everything.
    pub fn handle_input(&mut self, key: Key) -> (res: Result<Option<Num>, CalcError>)
        requires
            old(self).wf(),
            match key {
                Key::Num(n) => n <= 9,
                Key::UnOp(u) => old(self).op_requires(Op::UnOp(u)),
                Key::Result => match old(self).op_spec() {
                    Some(op) => old(self).op_requires(op),
                    None => true,
                },
                _ => true,
            },
        ensures
            final(self).wf(),
            final(self).a_spec().same_prec(old(self).a_spec()),
            ({
                let s = old(self).a_spec().scale();
                let f = old(self).a_spec().frac_spec();
                match key {
                    Key::Blank => res == Ok::<Option<Num>, CalcError>(None::<Num>) && *final(self)
                        == *old(self),
                    Key::Num(n) => {
                        &&& res == Ok::<Option<Num>, CalcError>(None::<Num>)
                        &&& final(self).in_frac() == old(self).in_frac()
                        &&& if old(self).in_frac() {
                            if old(self).digits_spec() < f {
                                &&& old(self).cur_set(
                                    *final(self),
                                    wrap_i64(
                                        old(self).cur().raw_spec() + n * pow10(
                                            (f - old(self).digits_spec() - 1) as nat,
                                        ),
                                    ),
                                )
                                &&& final(self).digits_spec() == old(self).digits_spec() + 1
                            } else {
                                *final(self) == *old(self)
                            }
                        } else {
                            &&& old(self).cur_set(
                                *final(self),
                                wrap_i64(
                                    fix_mul(old(self).cur().raw_spec() as int, fix_int(10, s), s)
                                        + fix_int(n as int, s),
                                ),
                            )
                            &&& final(self).digits_spec() == old(self).digits_spec()
                        }
                    },
                    Key::Dot => {
                        &&& res == Ok::<Option<Num>, CalcError>(None::<Num>)
                        &&& final(self).in_frac()
                        &&& final(self).digits_spec() == 0
                        &&& final(self).a_spec() == old(self).a_spec()
                        &&& final(self).b_spec() == old(self).b_spec()
                        &&& final(self).op_spec() == old(self).op_spec()
                    },
                    Key::BinOp(op) => {
                        &&& res == Ok::<Option<Num>, CalcError>(None::<Num>)
                        &&& final(self).op_spec() == Some(Op::BinOp(op))
                        &&& !final(self).in_frac()
                        &&& final(self).digits_spec() == 0
                        &&& final(self).a_spec() == old(self).a_spec()
                        &&& final(self).b_spec() == old(self).b_spec()
                    },
                    Key::UnOp(op) => {
                        &&& final(self).op_spec() is None
                        &&& !final(self).in_frac()
                        &&& final(self).digits_spec() == 0
                        &&& final(self).b_spec() == old(self).b_spec()
                        &&& match un_result(op, old(self).a_spec()) {
                            Ok(v) => {
                                &&& final(self).a_spec().raw_spec() as int == v
                                &&& res == Ok::<Option<Num>, CalcError>(
                                    Some(final(self).a_spec()),
                                )
                            },
                            Err(e) => {
                                &&& final(self).a_spec() == old(self).a_spec()
                                &&& res == Err::<Option<Num>, CalcError>(CalcError::Num(e))
                            },
                        }
                    },
                    Key::Const(c) => {
                        &&& res == Ok::<Option<Num>, CalcError>(None::<Num>)
                        &&& old(self).cur_set(*final(self), const_raw(c, f as nat))
                        &&& final(self).in_frac() == old(self).in_frac()
                        &&& final(self).digits_spec() == old(self).digits_spec()
                    },
                    Key::Result => match old(self).op_spec() {
                        None => {
                            &&& res == Err::<Option<Num>, CalcError>(CalcError::Calc)
                            &&& *final(self) == *old(self)
                        },
                        Some(Op::BinOp(op)) => {
                            &&& final(self).op_spec() is None
                            &&& final(self).b_spec().raw_spec() == 0
                            &&& match bin_result(op, old(self).a_spec(), old(self).b_spec()) {
                                Ok(v) => {
                                    &&& final(self).a_spec().raw_spec() as int == v
                                    &&& res == Ok::<Option<Num>, CalcError>(
                                        Some(final(self).a_spec()),
                                    )
                                    &&& !final(self).in_frac()
                                    &&& final(self).digits_spec() == 0
                                },
                                Err(e) => {
                                    &&& final(self).a_spec() == old(self).a_spec()
                                    &&& res == Err::<Option<Num>, CalcError>(CalcError::Num(e))
                                    &&& final(self).in_frac() == old(self).in_frac()
                                    &&& final(self).digits_spec() == old(self).digits_spec()
                                },
                            }
                        },
                        Some(Op::UnOp(op)) => {
                            &&& final(self).op_spec() is None
                            &&& final(self).b_spec() == old(self).b_spec()
                            &&& match un_result(op, old(self).a_spec()) {
                                Ok(v) => {
                                    &&& final(self).a_spec().raw_spec() as int == v
                                    &&& res == Ok::<Option<Num>, CalcError>(
                                        Some(final(self).a_spec()),
                                    )
                                    &&& !final(self).in_frac()
                                    &&& final(self).digits_spec() == 0
                                },
                                Err(e) => {
                                    &&& final(self).a_spec() == old(self).a_spec()
                                    &&& res == Err::<Option<Num>, CalcError>(CalcError::Num(e))
                                    &&& final(self).in_frac() == old(self).in_frac()
                                    &&& final(self).digits_spec() == old(self).digits_spec()
                                },
                            }
                        },
                    },
                    Key::Delete => {
                        &&& res == Ok::<Option<Num>, CalcError>(None::<Num>)
                        &&& if old(self).in_frac() {
                            if old(self).digits_spec() > 0 {
                                let ds = pow10((f - old(self).digits_spec()) as nat);
                                let last = tmod(tdiv(old(self).cur().raw_spec() as int, ds), 10);
                                &&& old(self).cur_set(
                                    *final(self),
                                    wrap_i64(old(self).cur().raw_spec() - last * ds),
                                )
                                &&& final(self).digits_spec() == old(self).digits_spec() - 1
                                &&& final(self).in_frac() == (old(self).digits_spec() > 1)
                            } else {
                                &&& !final(self).in_frac()
                                &&& final(self).digits_spec() == old(self).digits_spec()
                                &&& final(self).a_spec() == old(self).a_spec()
                                &&& final(self).b_spec() == old(self).b_spec()
                                &&& final(self).op_spec() == old(self).op_spec()
                            }
                        } else {
                            &&& old(self).cur_set(
                                *final(self),
                                fix_div(old(self).cur().raw_spec() as int, fix_int(10, s), s),
                            )
                            &&& final(self).in_frac() == old(self).in_frac()
                            &&& final(self).digits_spec() == old(self).digits_spec()
                        }
                    },
                    Key::Clear => {
                        &&& res == Ok::<Option<Num>, CalcError>(None::<Num>)
                        &&& old(self).cur_set(*final(self), 0)
                        &&& !final(self).in_frac()
                        &&& final(self).digits_spec() == 0
                    },
                    Key::Reset => {
                        &&& res == Ok::<Option<Num>, CalcError>(None::<Num>)
                        &&& final(self).a_spec().raw_spec() == 0
                        &&& final(self).op_spec() is None
                        &&& final(self).b_spec().raw_spec() == 0
                        &&& final(self).b_spec().same_prec(old(self).b_spec())
                        &&& !final(self).in_frac()
                        &&& final(self).digits_spec() == 0
                    },
                }
            }),
    {
        let f = self.a.frac();
        let w = self.a.work();
        match key {
            Key::Num(n) => {
                if self.frac {
                    if self.frac_digits < f {
                        let ds = crate::num::pow10_exec(f - self.frac_digits - 1);
                        proof {
                            assert(0 <= (n as int) * (ds as int) <= 9000000000000000000)
                                by (nonlinear_arith)
                                requires
                                    0 <= n <= 9 && 1 <= ds <= 1000000000000000000,
                            ;
                        }
                        let v = Num::from_raw((n as i64) * ds, f, w);
                        if self.op.is_none() {
                            self.a = self.a.add(v);
                        } else {
                            self.b = self.b.add(v);
                        }
                        self.frac_digits = self.frac_digits + 1;
                    }
                } else {
                    let ten = Num::from_int(10, f, w);
                    let d = Num::from_int(n as i64, f, w);
                    if self.op.is_none() {
                        self.a = self.a.mul(ten).add(d);
                    } else {
                        self.b = self.b.mul(ten).add(d);
                    }
                }
            },
            Key::Dot => {
                self.frac = true;
                self.frac_digits = 0;
            },
            Key::BinOp(op) => {
                self.op = Some(Op::BinOp(op));
                self.frac = false;
                self.frac_digits = 0;
            },
            Key::UnOp(op) => {
                self.op = Some(Op::UnOp(op));
                self.frac = false;
                self.frac_digits = 0;
                let r = match self.calc() {
                    Ok(v) => v,
                    Err(e) => {
                        return Err(e);
                    },
                };
                return Ok(Some(r));
            },
            Key::Const(c) => {
                let v = match c {
                    Const::Pi => Num::pi(f, w),
                    Const::Tau => Num::tau(f, w),
                    Const::Phi => Num::phi(f, w),
                    Const::EGamma => Num::egamma(f, w),
                    Const::Sqrt2 => Num::sqrt_2(f, w),
                    Const::E => Num::e(f, w),
                };
                if self.op.is_none() {
                    self.a = v;
                } else {
                    self.b = v;
                }
            },
            Key::Result => {
                let r = match self.calc() {
                    Ok(v) => v,
                    Err(e) => {
                        return Err(e);
                    },
                };
                self.frac = false;
                self.frac_digits = 0;
                return Ok(Some(r));
            },
            Key::Delete => {
                if self.frac {
                    if self.frac_digits > 0 {
                        let ds = crate::num::pow10_exec(f - self.frac_digits);
                        let cur = if self.op.is_none() {
                            self.a
                        } else {
                            self.b
                        };
                        proof {
                            lemma_tdiv_bound(cur.raw_spec() as int, ds as int);
                            lemma_tmod_bound(tdiv(cur.raw_spec() as int, ds as int), 10);
                        }
                        let last = crate::num::rem_trunc(
                            crate::num::div_trunc(cur.raw(), ds),
                            10,
                        );
                        proof {
                            assert(-9000000000000000000 <= (last as int) * (ds as int)
                                <= 9000000000000000000) by (nonlinear_arith)
                                requires
                                    -10 < last < 10 && 1 <= ds <= 1000000000000000000,
                            ;
                        }
                        let v = Num::from_raw(last * ds, f, w);
                        if self.op.is_none() {
                            self.a = self.a.sub(v);
                        } else {
                            self.b = self.b.sub(v);
                        }
                        self.frac_digits = self.frac_digits - 1;
                        if self.frac_digits == 0 {
                            self.frac = false;
                        }
                    } else {
                        self.frac = false;
                    }
                } else {
                    let ten = Num::from_int(10, f, w);
                    proof {
                        lemma_pow10_pos(f as nat);
                        vstd::arithmetic::mul::lemma_mul_increases(10, pow10(f as nat));
                    }
                    if self.op.is_none() {
                        self.a = self.a.div_pos(ten);
                    } else {
                        self.b = self.b.div_pos(ten);
                    }
                }
            },
            Key::Clear => {
                let z = Num::zero(f, w);
                if self.op.is_none() {
                    self.a = z;
                } else {
                    self.b = z;
                }
                self.frac = false;
                self.frac_digits = 0;
            },
            Key::Reset => {
                self.a = Num::zero(f, w);
                self.op = None;
                self.b = Num::zero(f, w);
                self.frac = false;
                self.frac_digits = 0;
            },
            Key::Blank => {},
        }
        Ok(None)
    }

    /// Apply the pending operator: a binary one to both operands, a unary
    /// one to the first. The result replaces the first operand; a binary
    /// step consumes the second. Without a pending operator, or when the
    /// engine reports a domain error, the step fails and the operands are
    /// left as they were.
    pub fn calc(&mut self) -> (res: Result<Num, CalcError>)
        requires
            old(self).wf(),
            match old(self).op_spec() {
                Some(op) => old(self).op_requires(op),
                None => true,
            },
        ensures
            final(self).wf(),
            final(self).op_spec() is None,
            final(self).a_spec().same_prec(old(self).a_spec()),
            final(self).in_frac() == old(self).in_frac(),
            final(self).digits_spec() == old(self).digits_spec(),
            match old(self).op_spec() {
                None => res == Err::<Num, CalcError>(CalcError::Calc) && *final(self) == *old(
                    self,
                ),
                Some(Op::BinOp(op)) => {
                    &&& final(self).b_spec().raw_spec() == 0
                    &&& final(self).b_spec().same_prec(old(self).b_spec())
                    &&& match bin_result(op, old(self).a_spec(), old(self).b_spec()) {
                        Ok(v) => {
                            &&& final(self).a_spec().raw_spec() as int == v
                            &&& res == Ok::<Num, CalcError>(final(self).a_spec())
                        },
                        Err(e) => {
                            &&& final(self).a_spec() == old(self).a_spec()
                            &&& res == Err::<Num, CalcError>(CalcError::Num(e))
                        },
                    }
                },
                Some(Op::UnOp(op)) => {
                    &&& final(self).b_spec() == old(self).b_spec()
                    &&& match un_result(op, old(self).a_spec()) {
                        Ok(v) => {
                            &&& final(self).a_spec().raw_spec() as int == v
                            &&& res == Ok::<Num, CalcError>(final(self).a_spec())
                        },
                        Err(e) => {
                            &&& final(self).a_spec() == old(self).a_spec()
                            &&& res == Err::<Num, CalcError>(CalcError::Num(e))
                        },
                    }
                },
            },
    {
        let op = match self.op {
            Some(op) => op,
            None => {
                return Err(CalcError::Calc);
            },
        };
        self.op = None;
        let a = self.a;
        match op {
            Op::BinOp(op) => {
                let b = self.b;
                self.b = Num::zero(self.b.frac(), self.b.work());
                let v = match op {
                    BinOp::Add => a.add(b),
                    BinOp::Sub => a.sub(b),
                    BinOp::Mul => a.mul(b),
                    BinOp::Div => match a.div(b) {
                        Ok(v) => v,
                        Err(e) => {
                            return Err(CalcError::Num(e));
                        },
                    },
                };
                self.a = v;
                Ok(v)
            },
            Op::UnOp(op) => {
                let v = match op {
                    UnOp::Neg => a.neg(),
                    UnOp::Sqrt => match a.sqrt() {
                        Ok(v) => {
                            proof {
                                lemma_rsqrt_unique(v.raw_spec() as int, a.raw_spec() * a.scale());
                            }
                            v
                        },
                        Err(e) => {
                            return Err(CalcError::Num(e));
                        },
                    },
                    UnOp::Pow2 => a.mul(a),
                    UnOp::Pow3 => a.mul(a).mul(a),
                    UnOp::Factorial => match a.factorial() {
                        Ok(v) => v,
                        Err(e) => {
                            return Err(CalcError::Num(e));
                        },
                    },
                    UnOp::Sin => a.sin(),
                    UnOp::Cos => a.cos(),
                    UnOp::Tan => match a.tan() {
                        Ok(v) => v,
                        Err(e) => {
                            return Err(CalcError::Num(e));
                        },
                    },
                };
                self.a = v;
                Ok(v)
            },
        }
    }
}

} // verus!
