//! The value and instruction model: tagged values with transparent
//! pointer sharing, reified instructions, procedures, and loadable
//! units.

use vstd::prelude::*;

use core::cmp::Ordering;

use crate::err::{BinOp, Error};
use crate::mem::Environment;

verus! {

use vstd::arithmetic::div_mod::lemma_fundamental_div_mod;
use vstd::arithmetic::div_mod::lemma_mod_multiples_vanish;
use vstd::string::StringExecFns;

/// A constant-pool index.
pub type ConstID = u16;

/// An identifier id.
pub type IdentID = u16;

/// An instruction quantifier (an 18-bit non-negative count).
pub type Quantif = u32;

/// The opcode tags.
#[derive(Clone, Copy, PartialEq, Eq, Structural, Debug)]
pub enum OpCode {
    PSS,
    PPS,
    REC,
    LMB,
    PRC,
    DVR,
    LVR,
    IFT,
    IFE,
    CGT,
    CLT,
    CEQ,
    CNT,
    CLL,
    CNV,
    CAT,
    CNS,
    CAR,
    CDR,
    ADD,
    SUB,
    MUL,
    DIV,
    DSP,
}

/// One instruction: an opcode tag with its optional fields and the
/// mute flag.
#[derive(Clone, Copy, PartialEq, Eq, Structural, Debug)]
pub struct Op {
    pub opcode: OpCode,
    pub ident: Option<IdentID>,
    pub n: Option<Quantif>,
    pub val: Option<ConstID>,
    pub typ: Option<Type>,
    pub mute: bool,
}

/// The variant tags of [`MemData`].
#[derive(Clone, Copy, PartialEq, Eq, Structural, Debug)]
pub enum Type {
    Pointer,
    Lambda,
    Proc,
    Inst,
    Str,
    Pair,
    Int,
    Char,
    Bool,
    Nil,
}

/// An ordered sequence of instructions, executable by the interpreter.
#[derive(Debug)]
pub struct Procedure {
    insts: Vec<Op>,
}

/// A runtime value: a tagged sum.
///
/// `Pointer` is a shared, immutable handle used to represent bindings;
/// dereference is transparent to arithmetic, ordering, conversion and
/// display.  `Lambda` pairs a procedure with the environment snapshot
/// captured at its creation; `Proc` is a procedure without a capture;
/// `Inst` is a single instruction reified as data by the recording
/// opcode.
#[derive(Debug)]
pub enum MemData {
    Pointer(Box<MemData>),
    Lambda(Procedure, Environment),
    Proc(Procedure),
    Inst(Op),
    Str(String),
    Pair { car: Box<MemData>, cdr: Box<MemData> },
    Int(u32),
    Char(u8),
    Bool(bool),
    Nil,
}

/// The mathematical model of a [`MemData`] value: the same tree, with
/// strings abstracted to character sequences and procedures to
/// instruction sequences.
pub enum ValView {
    Pointer(Box<ValView>),
    Lambda(Seq<Op>, Environment),
    Proc(Seq<Op>),
    Inst(Op),
    Str(Seq<char>),
    Pair(Box<ValView>, Box<ValView>),
    Int(u32),
    Char(u8),
    Bool(bool),
    Nil,
}

impl View for Procedure {
    type V = Seq<Op>;

    closed spec fn view(&self) -> Seq<Op> {
        self.insts@
    }
}

/// The model of a [`MemData`] value; `v@` is shorthand for
/// `val_view(v)`.
pub open spec fn val_view(v: MemData) -> ValView
    decreases v,
{
    match v {
        MemData::Pointer(p) => ValView::Pointer(Box::new(val_view(*p))),
        MemData::Lambda(p, e) => ValView::Lambda(p@, e),
        MemData::Proc(p) => ValView::Proc(p@),
        MemData::Inst(op) => ValView::Inst(op),
        MemData::Str(s) => ValView::Str(s@),
        MemData::Pair { car, cdr } => ValView::Pair(
            Box::new(val_view(*car)),
            Box::new(val_view(*cdr)),
        ),
        MemData::Int(i) => ValView::Int(i),
        MemData::Char(c) => ValView::Char(c),
        MemData::Bool(b) => ValView::Bool(b),
        MemData::Nil => ValView::Nil,
    }
}

impl View for MemData {
    type V = ValView;

    open spec fn view(&self) -> ValView {
        val_view(*self)
    }
}

/// The variant tag of a modelled value, without dereferencing.
pub open spec fn tag_of(v: ValView) -> Type {
    match v {
        ValView::Pointer(_) => Type::Pointer,
        ValView::Lambda(..) => Type::Lambda,
        ValView::Proc(_) => Type::Proc,
        ValView::Inst(_) => Type::Inst,
        ValView::Str(_) => Type::Str,
        ValView::Pair(..) => Type::Pair,
        ValView::Int(_) => Type::Int,
        ValView::Char(_) => Type::Char,
        ValView::Bool(_) => Type::Bool,
        ValView::Nil => Type::Nil,
    }
}

/// Full pointer unwrapping: the value a chain of `Pointer` wrappers
/// leads to.  On values the machine builds, pointees are never
/// themselves pointers, so this agrees with a single hop.
pub open spec fn unwrapped(v: ValView) -> ValView
    decreases v,
{
    match v {
        ValView::Pointer(p) => unwrapped(*p),
        _ => v,
    }
}

/// Pointer wrapping without double wrapping: what sharing a value out
/// of a binding or the constants pool yields.
pub open spec fn wrapped(v: ValView) -> ValView {
    match v {
        ValView::Pointer(_) => v,
        _ => ValView::Pointer(Box::new(v)),
    }
}

impl MemData {
    /// Returns the variant tag, without dereferencing.
    pub fn get_type(&self) -> (t: Type)
        ensures
            t == tag_of(self@),
    {
        match self {
            MemData::Pointer(_) => Type::Pointer,
            MemData::Lambda(..) => Type::Lambda,
            MemData::Proc(_) => Type::Proc,
            MemData::Inst(_) => Type::Inst,
            MemData::Str(_) => Type::Str,
            MemData::Pair { .. } => Type::Pair,
            MemData::Int(_) => Type::Int,
            MemData::Char(_) => Type::Char,
            MemData::Bool(_) => Type::Bool,
            MemData::Nil => Type::Nil,
        }
    }

    /// The error reporting that this value had the wrong variant.
    pub fn wrong_type(&self, wanted: Type) -> (e: Error)
        ensures
            e == Error::TypeError(wanted, tag_of(self@)),
    {
        Error::TypeError(wanted, self.get_type())
    }

    /// Traces a pointer back to its source value; transparent to every
    /// consumer.  A non-pointer value is returned unchanged.
    pub fn deref(&self) -> (r: &MemData)
        ensures
            r@ == unwrapped(self@),
        decreases self,
    {
        if let MemData::Pointer(p) = self {
            p.deref()
        } else {
            self
        }
    }

    /// Wraps a value as a shared pointer; an existing pointer is
    /// passed through, so pointees are never themselves pointers.
    pub fn create_pointer(data: MemData) -> (r: MemData)
        ensures
            r@ == wrapped(data@),
    {
        if data.get_type() == Type::Pointer {
            data
        } else {
            MemData::Pointer(Box::new(data))
        }
    }

    /// Shares an existing pointer; `None` for any other variant.
    pub fn clone_pointer(&self) -> (r: Option<MemData>)
        ensures
            match r {
                Some(v) => self@ is Pointer && v@ == self@,
                None => !(self@ is Pointer),
            },
    {
        if let MemData::Pointer(p) = self {
            Some(MemData::Pointer(Box::new((**p).clone())))
        } else {
            None
        }
    }

    /// True exactly of `Bool(true)`, seen through pointers.
    pub fn is_true(&self) -> (r: bool)
        ensures
            r == (unwrapped(self@) == ValView::Bool(true)),
    {
        match self.deref() {
            MemData::Bool(b) => *b,
            _ => false,
        }
    }

    /// True exactly of `Bool(false)`, seen through pointers.
    pub fn is_false(&self) -> (r: bool)
        ensures
            r == (unwrapped(self@) == ValView::Bool(false)),
    {
        match self.deref() {
            MemData::Bool(b) => !*b,
            _ => false,
        }
    }
}

/// The model of a `Result` carrying a value: the same result over the
/// value's model.
pub open spec fn res_view(r: Result<MemData, Error>) -> Result<ValView, Error> {
    match r {
        Ok(v) => Ok(v@),
        Err(e) => Err(e),
    }
}

/// The model of a sequence of values.
pub open spec fn vals_view(s: Seq<MemData>) -> Seq<ValView> {
    s.map_values(|v: MemData| val_view(v))
}

/// What [`MemData::cmp`] returns: natural order on two `Int`s, equal
/// on two `Nil`s, and an error on every other pairing, all seen
/// through pointers (the error names the undereferenced tags).
pub open spec fn cmp_view(a: ValView, b: ValView) -> Result<Ordering, Error> {
    match (unwrapped(a), unwrapped(b)) {
        (ValView::Int(x), ValView::Int(y)) => Ok(
            if x < y {
                Ordering::Less
            } else if x == y {
                Ordering::Equal
            } else {
                Ordering::Greater
            },
        ),
        (ValView::Nil, ValView::Nil) => Ok(Ordering::Equal),
        _ => Err(Error::BadOperandTypes(BinOp::Ordering, tag_of(a), tag_of(b))),
    }
}

/// What [`MemData::gt`] returns.
pub open spec fn gt_view(a: ValView, b: ValView) -> Result<bool, Error> {
    match cmp_view(a, b) {
        Ok(o) => Ok(o == Ordering::Greater),
        Err(e) => Err(e),
    }
}

/// What [`MemData::lt`] returns.
pub open spec fn lt_view(a: ValView, b: ValView) -> Result<bool, Error> {
    match cmp_view(a, b) {
        Ok(o) => Ok(o == Ordering::Less),
        Err(e) => Err(e),
    }
}

/// What [`MemData::eq`] returns: two `Str`s compare by contents;
/// every other pairing falls back to [`cmp_view`], and is thus only
/// defined where that is.
pub open spec fn eq_view(a: ValView, b: ValView) -> Result<bool, Error> {
    match (unwrapped(a), unwrapped(b)) {
        (ValView::Str(s), ValView::Str(t)) => Ok(s == t),
        _ => match cmp_view(a, b) {
            Ok(o) => Ok(o == Ordering::Equal),
            Err(e) => Err(e),
        },
    }
}

/// Total structural equality: pointers are unwrapped on both sides at
/// every level, pairs compare recursively, strings by contents, other
/// primitives by value, and procedure values by instruction sequence
/// and captured environment identity.
pub open spec fn struct_eq(a: ValView, b: ValView) -> bool
    decreases a, b,
{
    match (a, b) {
        (ValView::Pointer(p), _) => struct_eq(*p, b),
        (_, ValView::Pointer(q)) => struct_eq(a, *q),
        (ValView::Pair(c1, d1), ValView::Pair(c2, d2)) => struct_eq(*c1, *c2) && struct_eq(
            *d1,
            *d2,
        ),
        (ValView::Str(s), ValView::Str(t)) => s == t,
        (ValView::Lambda(p1, e1), ValView::Lambda(p2, e2)) => p1 == p2 && e1 == e2,
        (ValView::Proc(p1), ValView::Proc(p2)) => p1 == p2,
        (ValView::Inst(o1), ValView::Inst(o2)) => o1 == o2,
        (ValView::Int(x), ValView::Int(y)) => x == y,
        (ValView::Char(x), ValView::Char(y)) => x == y,
        (ValView::Bool(x), ValView::Bool(y)) => x == y,
        (ValView::Nil, ValView::Nil) => true,
        _ => false,
    }
}

/// Structural equality sees only the values behind pointers.
pub proof fn lemma_struct_eq_unwrap(a: ValView, b: ValView)
    ensures
        struct_eq(a, b) == struct_eq(unwrapped(a), unwrapped(b)),
    decreases a, b,
{
    match a {
        ValView::Pointer(p) => {
            lemma_struct_eq_unwrap(*p, b);
        },
        _ => {
            match b {
                ValView::Pointer(q) => {
                    lemma_struct_eq_unwrap(a, *q);
                },
                _ => {},
            }
        },
    }
}

/// Structural equality is reflexive.
pub proof fn lemma_struct_eq_reflexive(v: ValView)
    ensures
        struct_eq(v, v),
    decreases v,
{
    match v {
        ValView::Pointer(p) => {
            lemma_struct_eq_reflexive(*p);
            lemma_struct_eq_unwrap(*p, v);
            lemma_struct_eq_unwrap(*p, *p);
        },
        ValView::Pair(a, b) => {
            lemma_struct_eq_reflexive(*a);
            lemma_struct_eq_reflexive(*b);
        },
        _ => {},
    }
}

/// Law: dereferencing is idempotent — a second dereference of any
/// value returns the first one unchanged.
pub proof fn lemma_deref_idempotent(v: ValView)
    ensures
        unwrapped(unwrapped(v)) == unwrapped(v),
    decreases v,
{
    match v {
        ValView::Pointer(p) => {
            lemma_deref_idempotent(*p);
        },
        _ => {},
    }
}

/// Truncation to 32 bits: host `u32` arithmetic wraps.
pub open spec fn wrap32(n: int) -> u32 {
    (n % 0x1_0000_0000) as u32
}

/// What [`MemData::arith`] returns: both operands must dereference to
/// `Int`; division by zero fails; the other operations wrap modulo
/// `2^32`.
pub open spec fn arith_view(op: BinOp, a: ValView, b: ValView) -> Result<ValView, Error> {
    match (unwrapped(a), unwrapped(b)) {
        (ValView::Int(x), ValView::Int(y)) => match op {
            BinOp::Sum => Ok(ValView::Int(wrap32(x + y))),
            BinOp::Subtraction => Ok(ValView::Int(wrap32(x - y))),
            BinOp::Multiplication => Ok(ValView::Int(wrap32(x * y))),
            BinOp::Division => if y == 0 {
                Err(Error::BadOperandTypes(BinOp::Division, Type::Int, Type::Int))
            } else {
                Ok(ValView::Int((x as int / y as int) as u32))
            },
            BinOp::Ordering => Err(Error::BadOperandTypes(BinOp::Ordering, Type::Int, Type::Int)),
        },
        _ => Err(
            Error::BadOperandTypes(op, tag_of(unwrapped(a)), tag_of(unwrapped(b))),
        ),
    }
}

impl MemData {
    /// Compares two values: natural order on `Int`s, `Nil` equals
    /// `Nil`, and [`Error::BadOperandTypes`] on everything else.
    pub fn cmp(&self, other: &Self) -> (r: Result<Ordering, Error>)
        ensures
            r == cmp_view(self@, other@),
    {
        match (self.deref(), other.deref()) {
            (MemData::Int(a), MemData::Int(b)) => Ok(
                if *a < *b {
                    Ordering::Less
                } else if *a == *b {
                    Ordering::Equal
                } else {
                    Ordering::Greater
                },
            ),
            (MemData::Nil, MemData::Nil) => Ok(Ordering::Equal),
            _ => Err(
                Error::BadOperandTypes(BinOp::Ordering, self.get_type(), other.get_type()),
            ),
        }
    }

    /// Strictly-greater, derived from [`MemData::cmp`].
    pub fn gt(&self, other: &Self) -> (r: Result<bool, Error>)
        ensures
            r == gt_view(self@, other@),
    {
        match self.cmp(other) {
            Ok(o) => Ok(matches!(o, Ordering::Greater)),
            Err(e) => Err(e),
        }
    }

    /// Strictly-less, derived from [`MemData::cmp`].
    pub fn lt(&self, other: &Self) -> (r: Result<bool, Error>)
        ensures
            r == lt_view(self@, other@),
    {
        match self.cmp(other) {
            Ok(o) => Ok(matches!(o, Ordering::Less)),
            Err(e) => Err(e),
        }
    }

    /// Partial equality: `Str`s by contents, otherwise wherever
    /// [`MemData::cmp`] is defined.
    pub fn eq(&self, other: &Self) -> (r: Result<bool, Error>)
        ensures
            r == eq_view(self@, other@),
    {
        match (self.deref(), other.deref()) {
            (MemData::Str(s), MemData::Str(t)) => Ok(*s == *t),
            _ => match self.cmp(other) {
                Ok(o) => Ok(matches!(o, Ordering::Equal)),
                Err(e) => Err(e),
            },
        }
    }

    /// Total structural equality, unwrapping pointers at every level;
    /// see [`struct_eq`].
    pub fn struct_equal(&self, other: &Self) -> (r: bool)
        ensures
            r == struct_eq(self@, other@),
        decreases self, other,
    {
        match (self, other) {
            (MemData::Pointer(p), _) => (**p).struct_equal(other),
            (_, MemData::Pointer(q)) => self.struct_equal(&**q),
            (
                MemData::Pair { car: c1, cdr: d1 },
                MemData::Pair { car: c2, cdr: d2 },
            ) => (**c1).struct_equal(&**c2) && (**d1).struct_equal(&**d2),
            (MemData::Str(s), MemData::Str(t)) => *s == *t,
            (MemData::Lambda(p1, e1), MemData::Lambda(p2, e2)) => p1.same_ops(p2) && *e1 == *e2,
            (MemData::Proc(p1), MemData::Proc(p2)) => p1.same_ops(p2),
            (MemData::Inst(o1), MemData::Inst(o2)) => *o1 == *o2,
            (MemData::Int(x), MemData::Int(y)) => *x == *y,
            (MemData::Char(x), MemData::Char(y)) => *x == *y,
            (MemData::Bool(x), MemData::Bool(y)) => *x == *y,
            (MemData::Nil, MemData::Nil) => true,
            _ => false,
        }
    }

    /// One binary arithmetic step; see [`arith_view`].
    pub fn arith(&self, op: BinOp, other: &Self) -> (r: Result<MemData, Error>)
        ensures
            res_view(r) == arith_view(op, self@, other@),
    {
        let a = self.deref();
        let b = other.deref();
        match (a, b) {
            (MemData::Int(x), MemData::Int(y)) => match op {
                BinOp::Sum => {
                    let s: u64 = *x as u64 + *y as u64;
                    Ok(MemData::Int((s % 0x1_0000_0000u64) as u32))
                },
                BinOp::Subtraction => {
                    let s: u64 = *x as u64 + 0x1_0000_0000u64 - *y as u64;
                    proof {
                        lemma_mod_multiples_vanish(1, *x - *y, 0x1_0000_0000);
                    }
                    Ok(MemData::Int((s % 0x1_0000_0000u64) as u32))
                },
                BinOp::Multiplication => {
                    let xi: u64 = *x as u64;
                    let yi: u64 = *y as u64;
                    proof {
                        assert(xi * yi <= 0xFFFF_FFFFu64 * 0xFFFF_FFFFu64) by (nonlinear_arith)
                            requires
                                xi <= 0xFFFF_FFFFu64,
                                yi <= 0xFFFF_FFFFu64,
                        ;
                    }
                    let s: u64 = xi * yi;
                    Ok(MemData::Int((s % 0x1_0000_0000u64) as u32))
                },
                BinOp::Division => {
                    if *y == 0 {
                        Err(Error::BadOperandTypes(BinOp::Division, Type::Int, Type::Int))
                    } else {
                        Ok(MemData::Int(*x / *y))
                    }
                },
                BinOp::Ordering => Err(
                    Error::BadOperandTypes(BinOp::Ordering, Type::Int, Type::Int),
                ),
            },
            _ => Err(Error::BadOperandTypes(op, a.get_type(), b.get_type())),
        }
    }
}

impl Clone for MemData {
    /// A deep copy, equal to the original in the model.
    fn clone(&self) -> (r: Self)
        ensures
            r@ == self@,
        decreases self,
    {
        match self {
            MemData::Pointer(p) => MemData::Pointer(Box::new((**p).clone())),
            MemData::Lambda(p, e) => MemData::Lambda(p.clone(), *e),
            MemData::Proc(p) => MemData::Proc(p.clone()),
            MemData::Inst(op) => MemData::Inst(*op),
            MemData::Str(s) => MemData::Str(s.clone()),
            MemData::Pair { car, cdr } => MemData::Pair {
                car: Box::new((**car).clone()),
                cdr: Box::new((**cdr).clone()),
            },
            MemData::Int(i) => MemData::Int(*i),
            MemData::Char(c) => MemData::Char(*c),
            MemData::Bool(b) => MemData::Bool(*b),
            MemData::Nil => MemData::Nil,
        }
    }
}

/// The decimal digit character for `d` (`0 <= d <= 9`).
pub open spec fn dec_digit(d: int) -> char {
    if d == 0 {
        '0'
    } else if d == 1 {
        '1'
    } else if d == 2 {
        '2'
    } else if d == 3 {
        '3'
    } else if d == 4 {
        '4'
    } else if d == 5 {
        '5'
    } else if d == 6 {
        '6'
    } else if d == 7 {
        '7'
    } else if d == 8 {
        '8'
    } else {
        '9'
    }
}

/// The decimal rendering of a non-negative integer, most significant
/// digit first.
pub open spec fn dec_chars(n: int) -> Seq<char>
    decreases n,
{
    if n < 10 {
        seq![dec_digit(n)]
    } else {
        dec_chars(n / 10).push(dec_digit(n % 10))
    }
}

/// The human-readable rendering that conversion to `Str` produces:
/// `Int`s become their decimal digits, and the other variants a
/// debug-style rendering that names the variant tag.  Pointers are
/// transparent.
///
/// The exact text of the non-integer renderings is this crate's own,
/// fixed by this function, and deliberately plain: string and pair
/// contents appear verbatim inside the tag's parentheses, with no
/// quoting, escaping or field names, and a procedure value renders
/// as its bare tag.  Only the decimal rendering of integers is
/// pinned by anything beyond this definition.
pub open spec fn rendered(v: ValView) -> Seq<char>
    decreases v,
{
    match v {
        ValView::Pointer(p) => rendered(*p),
        ValView::Int(i) => dec_chars(i as int),
        ValView::Str(s) => "Str("@ + s + ")"@,
        ValView::Char(c) => "Char("@ + dec_chars(c as int) + ")"@,
        ValView::Bool(b) => if b {
            "Bool(true)"@
        } else {
            "Bool(false)"@
        },
        ValView::Nil => "Nil"@,
        ValView::Pair(x, y) => "Pair("@ + rendered(*x) + ", "@ + rendered(*y) + ")"@,
        ValView::Lambda(..) => "Lambda"@,
        ValView::Proc(_) => "Proc"@,
        ValView::Inst(_) => "Inst"@,
    }
}

/// The value a decimal digit character denotes.
pub open spec fn digit_val(c: char) -> int {
    if c == '0' {
        0
    } else if c == '1' {
        1
    } else if c == '2' {
        2
    } else if c == '3' {
        3
    } else if c == '4' {
        4
    } else if c == '5' {
        5
    } else if c == '6' {
        6
    } else if c == '7' {
        7
    } else if c == '8' {
        8
    } else if c == '9' {
        9
    } else {
        -1
    }
}

/// The number a sequence of decimal digit characters denotes, most
/// significant digit first.
pub open spec fn dec_value(s: Seq<char>) -> int
    decreases s.len(),
{
    if s.len() == 0 {
        0
    } else {
        dec_value(s.drop_last()) * 10 + digit_val(s.last())
    }
}

/// The decimal rendering of `n` is faithful: made of digit
/// characters only, and denoting exactly `n`.
pub proof fn lemma_dec_chars_value(n: int)
    requires
        n >= 0,
    ensures
        dec_value(dec_chars(n)) == n,
        forall|i: int|
            0 <= i < dec_chars(n).len() ==> digit_val(#[trigger] dec_chars(n)[i]) >= 0,
    decreases n,
{
    if n < 10 {
        assert(digit_val(dec_digit(n)) == n);
        assert(dec_chars(n) =~= seq![dec_digit(n)]);
        assert(dec_chars(n).drop_last() =~= Seq::<char>::empty());
        assert(dec_value(dec_chars(n)) == dec_value(dec_chars(n).drop_last()) * 10 + digit_val(
            dec_chars(n).last(),
        ));
        assert(dec_value(dec_chars(n)) == n);
    } else {
        lemma_dec_chars_value(n / 10);
        lemma_fundamental_div_mod(n, 10);
        assert(digit_val(dec_digit(n % 10)) == n % 10);
        assert(dec_chars(n).drop_last() =~= dec_chars(n / 10));
        assert(dec_chars(n).last() == dec_digit(n % 10));
        assert(dec_value(dec_chars(n)) == dec_value(dec_chars(n).drop_last()) * 10 + digit_val(
            dec_chars(n).last(),
        ));
        assert(dec_value(dec_chars(n)) == n);
        assert forall|i: int|
            0 <= i < dec_chars(n).len() implies digit_val(#[trigger] dec_chars(n)[i]) >= 0 by {
            if i < dec_chars(n).len() - 1 {
                assert(dec_chars(n)[i] == dec_chars(n / 10)[i]);
            }
        }
    }
}

/// Law: converting an integer to `Str` yields exactly its decimal
/// rendering, and that rendering denotes the integer itself.
pub proof fn lemma_convert_int_decimal(i: u32)
    ensures
        convert_view(ValView::Int(i), Type::Str) == Ok::<ValView, Error>(
            ValView::Str(dec_chars(i as int)),
        ),
        dec_value(dec_chars(i as int)) == i,
{
    lemma_dec_chars_value(i as int);
}

/// What [`MemData::convert`] returns: only `Str` is a supported
/// target; the rendering is [`rendered`].
pub open spec fn convert_view(v: ValView, t: Type) -> Result<ValView, Error> {
    if t == Type::Str {
        Ok(ValView::Str(rendered(v)))
    } else {
        Err(Error::IllegalConversion(tag_of(v), t))
    }
}

/// Appends the decimal digit character for `d`.
fn push_digit(s: &mut String, d: u32)
    requires
        d < 10,
    ensures
        final(s)@ == old(s)@.push(dec_digit(d as int)),
{
    match d {
        0 => {
            s.append("0");
            proof {
                reveal_strlit("0");
                assert(s@ =~= old(s)@.push('0'));
            }
        },
        1 => {
            s.append("1");
            proof {
                reveal_strlit("1");
                assert(s@ =~= old(s)@.push('1'));
            }
        },
        2 => {
            s.append("2");
            proof {
                reveal_strlit("2");
                assert(s@ =~= old(s)@.push('2'));
            }
        },
        3 => {
            s.append("3");
            proof {
                reveal_strlit("3");
                assert(s@ =~= old(s)@.push('3'));
            }
        },
        4 => {
            s.append("4");
            proof {
                reveal_strlit("4");
                assert(s@ =~= old(s)@.push('4'));
            }
        },
        5 => {
            s.append("5");
            proof {
                reveal_strlit("5");
                assert(s@ =~= old(s)@.push('5'));
            }
        },
        6 => {
            s.append("6");
            proof {
                reveal_strlit("6");
                assert(s@ =~= old(s)@.push('6'));
            }
        },
        7 => {
            s.append("7");
            proof {
                reveal_strlit("7");
                assert(s@ =~= old(s)@.push('7'));
            }
        },
        8 => {
            s.append("8");
            proof {
                reveal_strlit("8");
                assert(s@ =~= old(s)@.push('8'));
            }
        },
        _ => {
            s.append("9");
            proof {
                reveal_strlit("9");
                assert(s@ =~= old(s)@.push('9'));
            }
        },
    }
}

/// The decimal rendering of `i` as a string.
fn u32_to_dec(i: u32) -> (s: String)
    ensures
        s@ == dec_chars(i as int),
    decreases i,
{
    if i < 10 {
        let mut s = String::new();
        push_digit(&mut s, i);
        proof {
            assert(s@ =~= dec_chars(i as int));
        }
        s
    } else {
        let mut s = u32_to_dec(i / 10);
        push_digit(&mut s, i % 10);
        s
    }
}

impl MemData {
    /// Builds the rendering of [`rendered`] as a string.
    fn rendered_str(&self) -> (s: String)
        ensures
            s@ == rendered(self@),
        decreases self,
    {
        match self {
            MemData::Pointer(p) => (**p).rendered_str(),
            MemData::Int(i) => u32_to_dec(*i),
            MemData::Str(inner) => {
                let mut s = "Str(".to_owned();
                s.append(inner.as_str());
                s.append(")");
                s
            },
            MemData::Char(c) => {
                let mut s = "Char(".to_owned();
                let digits = u32_to_dec(*c as u32);
                s.append(digits.as_str());
                s.append(")");
                s
            },
            MemData::Bool(b) => {
                if *b {
                    "Bool(true)".to_owned()
                } else {
                    "Bool(false)".to_owned()
                }
            },
            MemData::Nil => "Nil".to_owned(),
            MemData::Pair { car, cdr } => {
                let mut s = "Pair(".to_owned();
                let left = (**car).rendered_str();
                s.append(left.as_str());
                s.append(", ");
                let right = (**cdr).rendered_str();
                s.append(right.as_str());
                s.append(")");
                s
            },
            MemData::Lambda(..) => "Lambda".to_owned(),
            MemData::Proc(_) => "Proc".to_owned(),
            MemData::Inst(_) => "Inst".to_owned(),
        }
    }

    /// Converts a value to the target type; see [`convert_view`].
    pub fn convert(&self, typ: &Type) -> (r: Result<MemData, Error>)
        ensures
            res_view(r) == convert_view(self@, *typ),
    {
        match typ {
            Type::Str => Ok(MemData::Str(self.rendered_str())),
            _ => Err(Error::IllegalConversion(self.get_type(), *typ)),
        }
    }
}

/// The id that the loader's remap table sends `id` to: the first
/// match in `old_ids` selects the parallel entry of `new_ids`; an
/// unlisted id is left unchanged.
pub open spec fn swapped_id(old_ids: Seq<IdentID>, new_ids: Seq<IdentID>, id: IdentID) -> IdentID
    decreases old_ids.len(),
{
    if old_ids.len() == 0 {
        id
    } else if old_ids[0] == id {
        new_ids[0]
    } else {
        swapped_id(old_ids.drop_first(), new_ids.drop_first(), id)
    }
}

/// An instruction with its identifier field, if any, remapped.
pub open spec fn op_with_swapped(op: Op, old_ids: Seq<IdentID>, new_ids: Seq<IdentID>) -> Op {
    match op.ident {
        Some(i) => Op { ident: Some(swapped_id(old_ids, new_ids, i)), ..op },
        None => op,
    }
}

/// An instruction with its constant field, if any, rebased by `ofs`.
pub open spec fn op_with_offset(op: Op, ofs: int) -> Op {
    match op.val {
        Some(c) => Op { val: Some((c + ofs) as u16), ..op },
        None => op,
    }
}

impl Op {
    /// Assembles an instruction from its fields.
    pub fn new(
        opcode: OpCode,
        ident: Option<IdentID>,
        n: Option<Quantif>,
        val: Option<ConstID>,
        typ: Option<Type>,
        mute: bool,
    ) -> (r: Self)
        ensures
            r == (Op { opcode, ident, n, val, typ, mute }),
    {
        Op { opcode, ident, n, val, typ, mute }
    }

    /// Rebases the constant field by `ofs`; the sum must stay within
    /// the constant-id range.
    pub fn apply_const_offset(&mut self, ofs: usize)
        requires
            old(self).val is Some ==> old(self).val->0 + ofs <= u16::MAX,
        ensures
            *final(self) == op_with_offset(*old(self), ofs as int),
    {
        match self.val {
            Some(c) => {
                self.val = Some(c + ofs as u16);
            },
            None => {},
        }
    }

    /// Remaps the identifier field through the parallel arrays
    /// `old_ids` and `new_ids`; an unlisted id is left unchanged.
    pub fn apply_ident_swap(&mut self, old_ids: &Vec<IdentID>, new_ids: &Vec<IdentID>)
        requires
            old_ids@.len() == new_ids@.len(),
        ensures
            *final(self) == op_with_swapped(*old(self), old_ids@, new_ids@),
    {
        let id = match self.ident {
            Some(id) => id,
            None => {
                return ;
            },
        };
        let mut i: usize = 0;
        proof {
            assert(old_ids@.skip(0) =~= old_ids@);
            assert(new_ids@.skip(0) =~= new_ids@);
        }
        while i < old_ids.len()
            invariant
                i <= old_ids@.len(),
                old_ids@.len() == new_ids@.len(),
                self == old(self),
                self.ident == Some(id),
                swapped_id(old_ids@, new_ids@, id) == swapped_id(
                    old_ids@.skip(i as int),
                    new_ids@.skip(i as int),
                    id,
                ),
            decreases old_ids@.len() - i,
        {
            proof {
                assert(old_ids@.skip(i as int)[0] == old_ids@[i as int]);
                assert(old_ids@.skip(i as int).drop_first() =~= old_ids@.skip(i + 1));
                assert(new_ids@.skip(i as int).drop_first() =~= new_ids@.skip(i + 1));
            }
            if old_ids[i] == id {
                self.ident = Some(new_ids[i]);
                return ;
            }
            i = i + 1;
        }
    }
}

impl Procedure {
    /// A procedure over the given instruction sequence.
    pub fn new(insts: Vec<Op>) -> (r: Self)
        ensures
            r@ == insts@,
    {
        Procedure { insts }
    }

    /// Read access to the instruction sequence.
    pub fn iter(&self) -> (r: &Vec<Op>)
        ensures
            r@ == self@,
    {
        &self.insts
    }

    /// The number of instructions.
    pub fn len(&self) -> (n: usize)
        ensures
            n == self@.len(),
    {
        self.insts.len()
    }

    /// The instruction at position `i`.
    pub fn op_at(&self, i: usize) -> (op: Op)
        requires
            i < self@.len(),
        ensures
            op == self@[i as int],
    {
        self.insts[i]
    }

    /// True exactly when the two procedures carry the same
    /// instruction sequence.
    pub fn same_ops(&self, other: &Procedure) -> (r: bool)
        ensures
            r == (self@ == other@),
    {
        if self.insts.len() != other.insts.len() {
            return false;
        }
        let mut i: usize = 0;
        while i < self.insts.len()
            invariant
                i <= self.insts@.len(),
                self.insts@.len() == other.insts@.len(),
                forall|j: int| 0 <= j < i ==> self.insts@[j] == other.insts@[j],
            decreases self.insts@.len() - i,
        {
            if self.insts[i] != other.insts[i] {
                return false;
            }
            i = i + 1;
        }
        proof {
            assert(self.insts@ =~= other.insts@);
        }
        true
    }

    /// Rebases every instruction's constant field by `ofs`.
    pub fn apply_const_offset(&mut self, ofs: usize)
        requires
            forall|i: int|
                0 <= i < old(self)@.len() ==> (old(self)@[i].val is Some ==> old(
                    self,
                )@[i].val->0 + ofs <= u16::MAX),
        ensures
            final(self)@.len() == old(self)@.len(),
            forall|i: int|
                0 <= i < old(self)@.len() ==> final(self)@[i] == op_with_offset(
                    old(self)@[i],
                    ofs as int,
                ),
    {
        let mut i: usize = 0;
        while i < self.insts.len()
            invariant
                i <= self.insts@.len(),
                self.insts@.len() == old(self)@.len(),
                forall|j: int|
                    i <= j < old(self)@.len() ==> self.insts@[j] == old(self)@[j],
                forall|j: int|
                    0 <= j < i ==> self.insts@[j] == op_with_offset(old(self)@[j], ofs as int),
                forall|j: int|
                    0 <= j < old(self)@.len() ==> (old(self)@[j].val is Some ==> old(
                        self,
                    )@[j].val->0 + ofs <= u16::MAX),
            decreases self.insts@.len() - i,
        {
            self.insts[i].apply_const_offset(ofs);
            i = i + 1;
        }
    }

    /// Remaps every instruction's identifier field through the
    /// parallel arrays `old_ids` and `new_ids`.
    pub fn apply_ident_swaps(&mut self, old_ids: Vec<IdentID>, new_ids: Vec<IdentID>)
        requires
            old_ids@.len() == new_ids@.len(),
        ensures
            final(self)@.len() == old(self)@.len(),
            forall|i: int|
                0 <= i < old(self)@.len() ==> final(self)@[i] == op_with_swapped(
                    old(self)@[i],
                    old_ids@,
                    new_ids@,
                ),
    {
        let mut i: usize = 0;
        while i < self.insts.len()
            invariant
                i <= self.insts@.len(),
                self.insts@.len() == old(self)@.len(),
                old_ids@.len() == new_ids@.len(),
                forall|j: int|
                    i <= j < old(self)@.len() ==> self.insts@[j] == old(self)@[j],
                forall|j: int|
                    0 <= j < i ==> self.insts@[j] == op_with_swapped(
                        old(self)@[j],
                        old_ids@,
                        new_ids@,
                    ),
            decreases self.insts@.len() - i,
        {
            self.insts[i].apply_ident_swap(&old_ids, &new_ids);
            i = i + 1;
        }
    }
}

/// The model of a loadable unit.
pub struct BinView {
    pub insts: Seq<Op>,
    pub idents: Seq<IdentID>,
    pub var_strings: Seq<(IdentID, Seq<char>)>,
    pub consts: Seq<ValView>,
}

/// A loadable unit: instructions, the identifier ids they use, the
/// unit's name-to-id associations, and its constant pool.
pub struct Bin {
    insts: Procedure,
    idents: Vec<IdentID>,
    var_strings: Vec<(IdentID, String)>,
    consts: Vec<MemData>,
}

impl View for Bin {
    type V = BinView;

    closed spec fn view(&self) -> BinView {
        BinView {
            insts: self.insts@,
            idents: self.idents@,
            var_strings: self.var_strings@.map_values(|p: (IdentID, String)| (p.0, p.1@)),
            consts: vals_view(self.consts@),
        }
    }
}

impl Bin {
    /// Packs a unit from its parts.
    pub fn new(
        insts: Procedure,
        idents: Vec<IdentID>,
        var_strings: Vec<(IdentID, String)>,
        consts: Vec<MemData>,
    ) -> (r: Self)
        ensures
            r@ == (BinView {
                insts: insts@,
                idents: idents@,
                var_strings: var_strings@.map_values(|p: (IdentID, String)| (p.0, p.1@)),
                consts: vals_view(consts@),
            }),
    {
        Bin { insts, idents, var_strings, consts }
    }

    /// Read access to the unit's instruction stream.
    pub fn instructions(&self) -> (r: &Procedure)
        ensures
            r@ == self@.insts,
    {
        &self.insts
    }

    /// Read access to the unit's local identifier list.
    pub fn idents(&self) -> (r: &Vec<IdentID>)
        ensures
            r@ == self@.idents,
    {
        &self.idents
    }

    /// Read access to the unit's constant list.
    pub fn consts(&self) -> (r: &Vec<MemData>)
        ensures
            vals_view(r@) == self@.consts,
    {
        &self.consts
    }

    /// Unpacks a unit into its parts.
    pub fn unpack(self) -> (r: (Procedure, Vec<IdentID>, Vec<(IdentID, String)>, Vec<MemData>))
        ensures
            r.0@ == self@.insts,
            r.1@ == self@.idents,
            r.2@.map_values(|p: (IdentID, String)| (p.0, p.1@)) == self@.var_strings,
            vals_view(r.3@) == self@.consts,
    {
        (self.insts, self.idents, self.var_strings, self.consts)
    }
}

impl Clone for Procedure {
    /// A copy with the same instruction sequence.
    fn clone(&self) -> (r: Self)
        ensures
            r@ == self@,
    {
        let mut insts: Vec<Op> = Vec::new();
        let mut i: usize = 0;
        while i < self.insts.len()
            invariant
                i <= self.insts.len(),
                insts@ == self.insts@.take(i as int),
            decreases self.insts.len() - i,
        {
            insts.push(self.insts[i]);
            proof {
                assert(insts@ =~= self.insts@.take(i + 1 as int));
            }
            i = i + 1;
        }
        proof {
            assert(insts@ =~= self.insts@);
        }
        Procedure { insts }
    }
}

} // verus!
