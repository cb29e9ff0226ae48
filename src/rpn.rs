//! A stack calculator over integers and booleans, in reverse Polish notation.

use rand::Rng;
use vstd::prelude::*;

verus! {

/// An element of the stack: an integer or a boolean.
#[derive(PartialEq, Eq, Structural, PartialOrd, Ord, Debug)]
pub enum Elt {
    Int(i32),
    Bool(bool),
}

/// Declares std's `io::Error`, which `Error::IO` carries; nothing is assumed
/// of it.
#[verifier::external_type_specification]
#[verifier::external_body]
pub struct ExIoError(std::io::Error);

/// What can go wrong while evaluating.
#[derive(Debug)]
pub enum Error {
    /// Tried to pop from an empty stack.
    Underflow,
    /// Tried to operate on values of the wrong kind.
    Type,
    /// Unable to parse the input.
    Syntax,
    /// Reading or writing failed.
    IO(std::io::Error),
    /// The user asked to quit.
    Quit,
}

/// The calculator's operations.
#[derive(Debug)]
pub enum Op {
    /// Pops two integers, pushes their sum (wrapping on overflow).
    Add,
    /// Pops two values of the same kind, pushes whether they are equal.
    Eq,
    /// Pops a value, pushes its negation (wrapping for the smallest integer).
    Neg,
    /// Swaps the two values on top.
    Swap,
    /// Pops a positive integer `x`, pushes a random integer in `[0, x)`.
    Rand,
    /// Quits the calculator.
    Quit,
}

/// The calculator's stack; its last element is the top.
pub struct Stack {
    elems: Vec<Elt>,
}

/// `s` with its top taken off, if it has one.
pub open spec fn popped(s: Seq<Elt>) -> Seq<Elt> {
    if s.len() == 0 {
        s
    } else {
        s.drop_last()
    }
}

/// Pops an integer: the stack left and the integer, or the error.
pub open spec fn pop_int_spec(s: Seq<Elt>) -> (Seq<Elt>, Result<i32, Error>) {
    if s.len() == 0 {
        (s, Err(Error::Underflow))
    } else {
        match s.last() {
            Elt::Int(i) => (s.drop_last(), Ok(i)),
            Elt::Bool(_) => (s.drop_last(), Err(Error::Type)),
        }
    }
}

/// Pops a boolean: the stack left and the boolean, or the error.
pub open spec fn pop_bool_spec(s: Seq<Elt>) -> (Seq<Elt>, Result<bool, Error>) {
    if s.len() == 0 {
        (s, Err(Error::Underflow))
    } else {
        match s.last() {
            Elt::Bool(b) => (s.drop_last(), Ok(b)),
            Elt::Int(_) => (s.drop_last(), Err(Error::Type)),
        }
    }
}

/// The stack left by evaluating `op` on `s`, and the answer. For `Rand`,
/// `draw` stands for the random value pushed.
pub open spec fn eval_spec(s: Seq<Elt>, op: Op, draw: i32) -> (Seq<Elt>, Result<(), Error>) {
    match op {
        Op::Add => {
            let (s1, a) = pop_int_spec(s);
            match a {
                Err(e) => (s1, Err(e)),
                Ok(x) => {
                    let (s2, b) = pop_int_spec(s1);
                    match b {
                        Err(e) => (s2, Err(e)),
                        Ok(y) => (s2.push(Elt::Int(x.wrapping_add(y))), Ok(())),
                    }
                },
            }
        },
        Op::Eq => {
            if s.len() == 0 {
                (s, Err(Error::Underflow))
            } else {
                match s.last() {
                    Elt::Int(x) => {
                        let (s2, b) = pop_int_spec(s.drop_last());
                        match b {
                            Err(e) => (s2, Err(e)),
                            Ok(y) => (s2.push(Elt::Bool(x == y)), Ok(())),
                        }
                    },
                    Elt::Bool(x) => {
                        let (s2, b) = pop_bool_spec(s.drop_last());
                        match b {
                            Err(e) => (s2, Err(e)),
                            Ok(y) => (s2.push(Elt::Bool(x == y)), Ok(())),
                        }
                    },
                }
            }
        },
        Op::Neg => {
            if s.len() == 0 {
                (s, Err(Error::Underflow))
            } else {
                match s.last() {
                    Elt::Int(x) => (s.drop_last().push(Elt::Int(0i32.wrapping_sub(x))), Ok(())),
                    Elt::Bool(x) => (s.drop_last().push(Elt::Bool(!x)), Ok(())),
                }
            }
        },
        Op::Swap => {
            if s.len() == 0 {
                (s, Err(Error::Underflow))
            } else if s.len() == 1 {
                (s.drop_last(), Err(Error::Underflow))
            } else {
                let first = s.last();
                let second = s.drop_last().last();
                (s.drop_last().drop_last().push(first).push(second), Ok(()))
            }
        },
        Op::Rand => {
            let (s1, a) = pop_int_spec(s);
            match a {
                Err(e) => (s1, Err(e)),
                Ok(x) => if x <= 0 {
                    (s1, Err(Error::Type))
                } else {
                    (s1.push(Elt::Int(draw)), Ok(()))
                },
            }
        },
        Op::Quit => (s, Err(Error::Quit)),
    }
}

/// `draw` is a value that `Rand` may push on `s`: below the bound on top.
pub open spec fn draw_fits(s: Seq<Elt>, draw: i32) -> bool {
    match pop_int_spec(s).1 {
        Ok(x) => x > 0 ==> 0 <= draw < x,
        Err(_) => true,
    }
}

/// Relies on rand's `thread_rng().gen_range(0..upper)`: a value drawn from
/// `[0, upper)`. It panics on an empty range, which `requires` rules out.
#[verifier::external_body]
fn draw_below(upper: i32) -> (r: i32)
    requires
        0 < upper,
    ensures
        0 <= r < upper,
{
    rand::thread_rng().gen_range(0..upper)
}

impl View for Stack {
    type V = Seq<Elt>;

    closed spec fn view(&self) -> Seq<Elt> {
        self.elems@
    }
}

impl Stack {
    /// Creates an empty stack.
    pub fn new() -> (r: Stack)
        ensures
            r@ == Seq::<Elt>::empty(),
    {
        Stack { elems: Vec::new() }
    }

    /// Pushes a value onto the stack; this always succeeds.
    pub fn push(&mut self, val: Elt) -> (r: Result<(), Error>)
        ensures
            final(self)@ == old(self)@.push(val),
            r == Ok::<(), Error>(()),
    {
        self.elems.push(val);
        Ok(())
    }

    /// Pops the top value, or fails with `Underflow` on an empty stack.
    pub fn pop(&mut self) -> (r: Result<Elt, Error>)
        ensures
            final(self)@ == popped(old(self)@),
            old(self)@.len() == 0 ==> r == Err::<Elt, Error>(Error::Underflow),
            old(self)@.len() > 0 ==> r == Ok::<Elt, Error>(old(self)@.last()),
    {
        match self.elems.pop() {
            Some(v) => Ok(v),
            None => Err(Error::Underflow),
        }
    }

    /// Evaluates `op` on the stack. A `Rand` whose bound is not positive
    /// fails with `Type`, the bound having been popped.
    pub fn eval(&mut self, op: Op) -> (r: Result<(), Error>)
        ensures
            !(op is Rand) ==> (final(self)@, r) == eval_spec(old(self)@, op, 0),
            op is Rand ==> exists|d: i32|
                draw_fits(old(self)@, d) && (final(self)@, r) == eval_spec(old(self)@, op, d),
    {
        match op {
            Op::Add => self.add(),
            Op::Eq => self.eq(),
            Op::Neg => self.neg(),
            Op::Swap => self.swap(),
            Op::Rand => self.rand(),
            Op::Quit => Err(Error::Quit),
        }
    }

    fn is_int(val: Elt) -> (r: Result<i32, Error>)
        ensures
            r == match val {
                Elt::Int(i) => Ok::<i32, Error>(i),
                Elt::Bool(_) => Err(Error::Type),
            },
    {
        match val {
            Elt::Int(i) => Ok(i),
            Elt::Bool(_) => Err(Error::Type),
        }
    }

    fn is_bool(val: Elt) -> (r: Result<bool, Error>)
        ensures
            r == match val {
                Elt::Bool(b) => Ok::<bool, Error>(b),
                Elt::Int(_) => Err(Error::Type),
            },
    {
        match val {
            Elt::Bool(b) => Ok(b),
            Elt::Int(_) => Err(Error::Type),
        }
    }

    fn pop_and_check_int(&mut self) -> (r: Result<i32, Error>)
        ensures
            (final(self)@, r) == pop_int_spec(old(self)@),
    {
        match self.pop() {
            Ok(v) => Stack::is_int(v),
            Err(e) => Err(e),
        }
    }

    fn pop_and_check_bool(&mut self) -> (r: Result<bool, Error>)
        ensures
            (final(self)@, r) == pop_bool_spec(old(self)@),
    {
        match self.pop() {
            Ok(v) => Stack::is_bool(v),
            Err(e) => Err(e),
        }
    }

    fn add(&mut self) -> (r: Result<(), Error>)
        ensures
            (final(self)@, r) == eval_spec(old(self)@, Op::Add, 0),
    {
        let first = match self.pop_and_check_int() {
            Ok(x) => x,
            Err(e) => return Err(e),
        };
        let second = match self.pop_and_check_int() {
            Ok(y) => y,
            Err(e) => return Err(e),
        };
        self.push(Elt::Int(first.wrapping_add(second)))
    }

    fn neg(&mut self) -> (r: Result<(), Error>)
        ensures
            (final(self)@, r) == eval_spec(old(self)@, Op::Neg, 0),
    {
        match self.pop() {
            Ok(Elt::Int(i)) => self.push(Elt::Int(0i32.wrapping_sub(i))),
            Ok(Elt::Bool(b)) => self.push(Elt::Bool(!b)),
            Err(e) => Err(e),
        }
    }

    fn eq(&mut self) -> (r: Result<(), Error>)
        ensures
            (final(self)@, r) == eval_spec(old(self)@, Op::Eq, 0),
    {
        match self.pop() {
            Ok(Elt::Int(first)) => match self.pop_and_check_int() {
                Ok(second) => self.push(Elt::Bool(first == second)),
                Err(e) => Err(e),
            },
            Ok(Elt::Bool(first)) => match self.pop_and_check_bool() {
                Ok(second) => self.push(Elt::Bool(first == second)),
                Err(e) => Err(e),
            },
            Err(e) => Err(e),
        }
    }

    fn swap(&mut self) -> (r: Result<(), Error>)
        ensures
            (final(self)@, r) == eval_spec(old(self)@, Op::Swap, 0),
    {
        let first = match self.pop() {
            Ok(v) => v,
            Err(e) => return Err(e),
        };
        let second = match self.pop() {
            Ok(v) => v,
            Err(e) => return Err(e),
        };
        let _ = self.push(first);
        self.push(second)
    }

    fn rand(&mut self) -> (r: Result<(), Error>)
        ensures
            exists|d: i32|
                draw_fits(old(self)@, d) && (final(self)@, r) == eval_spec(
                    old(self)@,
                    Op::Rand,
                    d,
                ),
    {
        let upper = match self.pop_and_check_int() {
            Ok(x) => x,
            Err(e) => {
                assert(draw_fits(old(self)@, 0));
                return Err(e);
            },
        };
        if upper <= 0 {
            assert(draw_fits(old(self)@, 0));
            return Err(Error::Type);
        }
        let d = draw_below(upper);
        assert(draw_fits(old(self)@, d));
        self.push(Elt::Int(d))
    }
}

} // verus!
