//! Reading a line of calculator input: words separated by white space, each
//! a literal, an operator or an integer, evaluated in turn on a stack.

use crate::rpn::{draw_fits, eval_spec, Elt, Error, Op, Stack};
use vstd::prelude::*;
use vstd::utf8::encode_utf8;

verus! {

/// Unicode White_Space: U+0009 to U+000D, U+0020, U+0085, U+00A0, U+1680,
/// U+2000 to U+200A, U+2028, U+2029, U+202F, U+205F and U+3000.
pub open spec fn is_space(c: char) -> bool {
    let u = c as u32;
    ||| 0x9 <= u <= 0xD
    ||| u == 0x20
    ||| u == 0x85
    ||| u == 0xA0
    ||| u == 0x1680
    ||| 0x2000 <= u <= 0x200A
    ||| u == 0x2028
    ||| u == 0x2029
    ||| u == 0x202F
    ||| u == 0x205F
    ||| u == 0x3000
}

/// Every character of `b[lo..hi]` is white space.
pub open spec fn spaces(b: Seq<char>, lo: int, hi: int) -> bool {
    forall|j: int| lo <= j < hi ==> is_space(#[trigger] b[j])
}

/// `b[lo..hi]` is non-empty and holds no white space.
pub open spec fn solid(b: Seq<char>, lo: int, hi: int) -> bool {
    &&& lo < hi
    &&& forall|j: int| lo <= j < hi ==> !is_space(#[trigger] b[j])
}

/// `sp` lists, in order, the start and end of each maximal run of
/// non-white-space characters of `b`.
pub open spec fn is_split(b: Seq<char>, sp: Seq<(usize, usize)>) -> bool {
    &&& forall|k: int|
        0 <= k < sp.len() ==> #[trigger] sp[k].1 <= b.len() && solid(
            b,
            sp[k].0 as int,
            sp[k].1 as int,
        )
    &&& forall|k: int|
        0 <= k < sp.len() - 1 ==> #[trigger] sp[k].1 < sp[k + 1].0 && spaces(
            b,
            sp[k].1 as int,
            sp[k + 1].0 as int,
        )
    &&& sp.len() == 0 ==> spaces(b, 0, b.len() as int)
    &&& sp.len() > 0 ==> spaces(b, 0, sp[0].0 as int) && spaces(
        b,
        sp.last().1 as int,
        b.len() as int,
    )
}

/// The words that the spans `sp` pick out of `b`.
pub open spec fn words_at(b: Seq<char>, sp: Seq<(usize, usize)>) -> Seq<Seq<char>> {
    sp.map_values(|p: (usize, usize)| b.subrange(p.0 as int, p.1 as int))
}

proof fn lemma_split_from(b: Seq<char>, sp1: Seq<(usize, usize)>, sp2: Seq<(usize, usize)>, k: int)
    requires
        is_split(b, sp1),
        is_split(b, sp2),
        0 <= k <= sp1.len(),
        k <= sp2.len(),
        forall|j: int| 0 <= j < k ==> sp1[j] == sp2[j],
    ensures
        sp1 == sp2,
    decreases sp1.len() + sp2.len() - 2 * k,
{
    // Where the gap before the k-th word starts.
    let from: int = if k == 0 {
        0
    } else {
        sp1[k - 1].1 as int
    };
    if k > 0 {
        assert(sp1[k - 1] == sp2[k - 1]);
    }
    if k < sp1.len() && k < sp2.len() {
        let (a1, e1) = (sp1[k].0 as int, sp1[k].1 as int);
        let (a2, e2) = (sp2[k].0 as int, sp2[k].1 as int);
        assert(solid(b, a1, e1) && solid(b, a2, e2));
        if k > 0 {
            assert(sp1[k - 1].1 < sp1[k].0 && spaces(b, from, a1));
            assert(sp2[k - 1].1 < sp2[k].0 && spaces(b, from, a2));
        } else {
            assert(spaces(b, 0, a1) && spaces(b, 0, a2));
        }
        if a1 < a2 {
            assert(!is_space(b[a1]));
        } else if a2 < a1 {
            assert(!is_space(b[a2]));
        }
        assert(a1 == a2);
        // The byte at the end of the shorter word is white space.
        if e1 < e2 {
            if k + 1 < sp1.len() {
                assert(sp1[k].1 < sp1[k + 1].0 && spaces(b, e1, sp1[k + 1].0 as int));
            } else {
                assert(spaces(b, sp1.last().1 as int, b.len() as int));
            }
            assert(is_space(b[e1]));
            assert(!is_space(b[e1]));
        } else if e2 < e1 {
            if k + 1 < sp2.len() {
                assert(sp2[k].1 < sp2[k + 1].0 && spaces(b, e2, sp2[k + 1].0 as int));
            } else {
                assert(spaces(b, sp2.last().1 as int, b.len() as int));
            }
            assert(is_space(b[e2]));
            assert(!is_space(b[e2]));
        }
        assert(sp1[k] == sp2[k]);
        lemma_split_from(b, sp1, sp2, k + 1);
    } else if k < sp2.len() {
        let a2 = sp2[k].0 as int;
        assert(solid(b, a2, sp2[k].1 as int));
        if k > 0 {
            assert(sp2[k - 1].1 < sp2[k].0);
            assert(spaces(b, sp1.last().1 as int, b.len() as int));
        } else {
            assert(spaces(b, 0, b.len() as int));
        }
        assert(is_space(b[a2]));
    } else if k < sp1.len() {
        let a1 = sp1[k].0 as int;
        assert(solid(b, a1, sp1[k].1 as int));
        if k > 0 {
            assert(sp1[k - 1].1 < sp1[k].0);
            assert(spaces(b, sp2.last().1 as int, b.len() as int));
        } else {
            assert(spaces(b, 0, b.len() as int));
        }
        assert(is_space(b[a1]));
    } else {
        assert(sp1 =~= sp2);
    }
}

/// A string splits into words in one way only.
pub proof fn lemma_split_unique(b: Seq<char>, sp1: Seq<(usize, usize)>, sp2: Seq<(usize, usize)>)
    requires
        is_split(b, sp1),
        is_split(b, sp2),
    ensures
        sp1 == sp2,
{
    lemma_split_from(b, sp1, sp2, 0);
}

/// Relies on `str::split_whitespace`: the words of `s` in order, each a
/// maximal run of characters without the Unicode White_Space property.
#[verifier::external_body]
fn split_line(s: &str) -> (r: Vec<String>)
    ensures
        exists|sp: Seq<(usize, usize)>|
            #[trigger] is_split(s@, sp) && r@.len() == sp.len() && forall|k: int|
                0 <= k < sp.len() ==> #[trigger] r@[k]@ == s@.subrange(sp[k].0 as int, sp[k].1 as int),
{
    s.split_whitespace().map(String::from).collect()
}

/// What a word asks the calculator to do.
pub enum Command {
    /// Push a value.
    Push(Elt),
    /// Apply an operation.
    Apply(Op),
    /// Not a word of the calculator.
    Unknown,
}

/// A decimal digit.
pub open spec fn is_digit(c: u8) -> bool {
    48 <= c && c <= 57
}

/// The value of a string of decimal digits.
pub open spec fn digits_value(d: Seq<u8>) -> int
    decreases d.len(),
{
    if d.len() == 0 {
        0
    } else {
        digits_value(d.drop_last()) * 10 + (d.last() - 48)
    }
}

/// Every byte of `d` is a decimal digit.
pub open spec fn all_digits(d: Seq<u8>) -> bool {
    forall|j: int| 0 <= j < d.len() ==> is_digit(#[trigger] d[j])
}

/// `t` starts with a `+` or a `-`.
pub open spec fn has_sign(t: Seq<u8>) -> bool {
    t.len() > 0 && (t[0] == 43 || t[0] == 45)
}

/// `t` without its sign.
pub open spec fn unsigned_part(t: Seq<u8>) -> Seq<u8> {
    if has_sign(t) {
        t.drop_first()
    } else {
        t
    }
}

/// The number that `t` writes in decimal, with an optional sign.
pub open spec fn signed_value(t: Seq<u8>) -> int {
    if has_sign(t) && t[0] == 45 {
        -digits_value(unsigned_part(t))
    } else {
        digits_value(unsigned_part(t))
    }
}

/// The `i32` that `t` writes in decimal, with an optional `+` or `-` sign,
/// if it writes one that fits.
pub open spec fn i32_of(t: Seq<u8>) -> Option<i32> {
    if unsigned_part(t).len() > 0 && all_digits(unsigned_part(t)) && i32::MIN <= signed_value(t)
        <= i32::MAX {
        Some(signed_value(t) as i32)
    } else {
        None
    }
}

/// The meaning of a word.
pub open spec fn command_of(t: Seq<u8>) -> Command {
    if t == seq![116u8, 114, 117, 101] {
        Command::Push(Elt::Bool(true))
    } else if t == seq![102u8, 97, 108, 115, 101] {
        Command::Push(Elt::Bool(false))
    } else if t == seq![43u8] {
        Command::Apply(Op::Add)
    } else if t == seq![126u8] {
        Command::Apply(Op::Neg)
    } else if t == seq![60u8, 45, 62] {
        Command::Apply(Op::Swap)
    } else if t == seq![61u8] {
        Command::Apply(Op::Eq)
    } else if t == seq![35u8] {
        Command::Apply(Op::Rand)
    } else if t == seq![113u8, 117, 105, 116] {
        Command::Apply(Op::Quit)
    } else {
        match i32_of(t) {
            Some(v) => Command::Push(Elt::Int(v)),
            None => Command::Unknown,
        }
    }
}

proof fn lemma_digits_grow(d: Seq<u8>, m: int)
    requires
        0 <= m <= d.len(),
        forall|j: int| 0 <= j < d.len() ==> is_digit(#[trigger] d[j]),
    ensures
        0 <= digits_value(d.subrange(0, m)) <= digits_value(d),
    decreases d.len() - m,
{
    if m < d.len() {
        lemma_digits_grow(d, m + 1);
        assert(d.subrange(0, m + 1).drop_last() =~= d.subrange(0, m));
        assert(is_digit(d[m]));
        lemma_digits_nonneg(d.subrange(0, m));
    } else {
        assert(d.subrange(0, m) =~= d);
        lemma_digits_nonneg(d);
    }
}

proof fn lemma_digits_nonneg(d: Seq<u8>)
    requires
        forall|j: int| 0 <= j < d.len() ==> is_digit(#[trigger] d[j]),
    ensures
        0 <= digits_value(d),
    decreases d.len(),
{
    if d.len() > 0 {
        lemma_digits_nonneg(d.drop_last());
        assert(is_digit(d[d.len() - 1]));
    }
}

/// Reads `b[lo..hi]` as a decimal `i32` with an optional sign.
fn parse_i32(b: &[u8], lo: usize, hi: usize) -> (r: Option<i32>)
    requires
        lo <= hi <= b@.len(),
    ensures
        r == i32_of(b@.subrange(lo as int, hi as int)),
{
    let ghost t = b@.subrange(lo as int, hi as int);
    let signed = lo < hi && (b[lo] == 43 || b[lo] == 45);
    let negative = signed && b[lo] == 45;
    let pos: usize = if signed {
        lo + 1
    } else {
        lo
    };
    let ghost d = b@.subrange(pos as int, hi as int);
    proof {
        if signed {
            assert(d =~= t.drop_first());
        } else {
            assert(d =~= t);
        }
    }
    if pos == hi {
        return None;
    }
    let mut acc: i64 = 0;
    let mut j: usize = pos;
    while j < hi
        invariant
            lo <= pos <= j <= hi <= b@.len(),
            d == b@.subrange(pos as int, hi as int),
            t == b@.subrange(lo as int, hi as int),
            signed == has_sign(t),
            negative == (signed && t[0] == 45),
            d == unsigned_part(t),
            forall|k: int| 0 <= k < j - pos ==> is_digit(#[trigger] d[k]),
            acc == digits_value(d.subrange(0, j - pos)),
            0 <= acc <= 2147483648,
        decreases hi - j,
    {
        let c = b[j];
        if !(48 <= c && c <= 57) {
            proof {
                assert(!is_digit(d[j - pos]));
                assert(!all_digits(d));
            }
            return None;
        }
        proof {
            assert(d.subrange(0, j + 1 - pos).drop_last() =~= d.subrange(0, j - pos));
        }
        acc = acc * 10 + (c - 48) as i64;
        j = j + 1;
        if acc > 2147483648 {
            proof {
                if all_digits(d) {
                    lemma_digits_grow(d, j - pos);
                }
            }
            return None;
        }
    }
    proof {
        assert(d.subrange(0, d.len() as int) =~= d);
    }
    let v: i64 = if negative {
        -acc
    } else {
        acc
    };
    if v < -2147483648 || v > 2147483647 {
        None
    } else {
        Some(v as i32)
    }
}

/// `b[lo..hi]` is the word `w`.
fn word_is(b: &[u8], lo: usize, hi: usize, w: &[u8]) -> (r: bool)
    requires
        lo <= hi <= b@.len(),
    ensures
        r == (b@.subrange(lo as int, hi as int) == w@),
{
    if hi - lo != w.len() {
        return false;
    }
    let mut k: usize = 0;
    while k < w.len()
        invariant
            lo <= hi <= b@.len(),
            hi - lo == w@.len(),
            0 <= k <= w@.len(),
            forall|m: int| 0 <= m < k ==> b@[lo + m] == w@[m],
        decreases w@.len() - k,
    {
        if b[lo + k] != w[k] {
            proof {
                assert(b@.subrange(lo as int, hi as int)[k as int] != w@[k as int]);
            }
            return false;
        }
        k = k + 1;
    }
    proof {
        assert(b@.subrange(lo as int, hi as int) =~= w@);
    }
    true
}

/// The meaning of the word `b[lo..hi]`.
pub fn read_command(b: &[u8], lo: usize, hi: usize) -> (r: Command)
    requires
        lo <= hi <= b@.len(),
    ensures
        r == command_of(b@.subrange(lo as int, hi as int)),
{
    let ghost t = b@.subrange(lo as int, hi as int);
    let w_true: [u8; 4] = [116, 114, 117, 101];
    let w_false: [u8; 5] = [102, 97, 108, 115, 101];
    let w_add: [u8; 1] = [43];
    let w_neg: [u8; 1] = [126];
    let w_swap: [u8; 3] = [60, 45, 62];
    let w_eq: [u8; 1] = [61];
    let w_rand: [u8; 1] = [35];
    let w_quit: [u8; 4] = [113, 117, 105, 116];
    proof {
        assert(w_true@ =~= seq![116u8, 114, 117, 101]);
        assert(w_false@ =~= seq![102u8, 97, 108, 115, 101]);
        assert(w_add@ =~= seq![43u8]);
        assert(w_neg@ =~= seq![126u8]);
        assert(w_swap@ =~= seq![60u8, 45, 62]);
        assert(w_eq@ =~= seq![61u8]);
        assert(w_rand@ =~= seq![35u8]);
        assert(w_quit@ =~= seq![113u8, 117, 105, 116]);
    }
    if word_is(b, lo, hi, w_true.as_slice()) {
        Command::Push(Elt::Bool(true))
    } else if word_is(b, lo, hi, w_false.as_slice()) {
        Command::Push(Elt::Bool(false))
    } else if word_is(b, lo, hi, w_add.as_slice()) {
        Command::Apply(Op::Add)
    } else if word_is(b, lo, hi, w_neg.as_slice()) {
        Command::Apply(Op::Neg)
    } else if word_is(b, lo, hi, w_swap.as_slice()) {
        Command::Apply(Op::Swap)
    } else if word_is(b, lo, hi, w_eq.as_slice()) {
        Command::Apply(Op::Eq)
    } else if word_is(b, lo, hi, w_rand.as_slice()) {
        Command::Apply(Op::Rand)
    } else if word_is(b, lo, hi, w_quit.as_slice()) {
        Command::Apply(Op::Quit)
    } else {
        match parse_i32(b, lo, hi) {
            Some(v) => Command::Push(Elt::Int(v)),
            None => Command::Unknown,
        }
    }
}

/// The stack left by the command `c` on `s`, and the answer; `draw` stands
/// for the value that a `Rand` pushes.
pub open spec fn command_spec(s: Seq<Elt>, c: Command, draw: i32) -> (Seq<Elt>, Result<(), Error>) {
    match c {
        Command::Push(e) => (s.push(e), Ok(())),
        Command::Apply(op) => eval_spec(s, op, draw),
        Command::Unknown => (s, Err(Error::Syntax)),
    }
}

/// `draw` is a value that the command `c` may push on `s`.
pub open spec fn command_fits(s: Seq<Elt>, c: Command, draw: i32) -> bool {
    match c {
        Command::Apply(Op::Rand) => draw_fits(s, draw),
        _ => true,
    }
}

/// The stack left by the word `t` on `s`, and the answer.
pub open spec fn step_spec(s: Seq<Elt>, t: Seq<char>, draw: i32) -> (Seq<Elt>, Result<(), Error>) {
    command_spec(s, command_of(encode_utf8(t)), draw)
}

/// `draw` is a value that the word `t` may push on `s`.
pub open spec fn step_fits(s: Seq<Elt>, t: Seq<char>, draw: i32) -> bool {
    command_fits(s, command_of(encode_utf8(t)), draw)
}

/// The stack left by the words `ws`, evaluated in turn on `s` up to the
/// first error, and the answer; `draws[k]` stands for what the `k`-th word
/// pushes when it is a `#`.
pub open spec fn run(s: Seq<Elt>, ws: Seq<Seq<char>>, draws: Seq<i32>) -> (
    Seq<Elt>,
    Result<(), Error>,
)
    decreases ws.len(),
{
    if ws.len() == 0 {
        (s, Ok(()))
    } else {
        let (s1, r1) = run(s, ws.drop_last(), draws.drop_last());
        match r1 {
            Err(e) => (s1, Err(e)),
            Ok(_) => step_spec(s1, ws.last(), draws.last()),
        }
    }
}

/// Each value in `draws` that `run` uses is one the word may push.
pub open spec fn run_fits(s: Seq<Elt>, ws: Seq<Seq<char>>, draws: Seq<i32>) -> bool
    decreases ws.len(),
{
    if ws.len() == 0 {
        true
    } else {
        let (s1, r1) = run(s, ws.drop_last(), draws.drop_last());
        &&& run_fits(s, ws.drop_last(), draws.drop_last())
        &&& (r1 is Ok ==> step_fits(s1, ws.last(), draws.last()))
    }
}

proof fn lemma_run_stops(s: Seq<Elt>, ws: Seq<Seq<char>>, draws: Seq<i32>, m: int)
    requires
        0 <= m <= ws.len(),
        draws.len() == ws.len(),
        run(s, ws.subrange(0, m), draws.subrange(0, m)).1 is Err,
        run_fits(s, ws.subrange(0, m), draws.subrange(0, m)),
    ensures
        run(s, ws, draws) == run(s, ws.subrange(0, m), draws.subrange(0, m)),
        run_fits(s, ws, draws),
    decreases ws.len() - m,
{
    if m < ws.len() {
        let ws1 = ws.subrange(0, m + 1);
        let ds1 = draws.subrange(0, m + 1);
        assert(ws1.drop_last() =~= ws.subrange(0, m));
        assert(ds1.drop_last() =~= draws.subrange(0, m));
        lemma_run_stops(s, ws, draws, m + 1);
    } else {
        assert(ws.subrange(0, m) =~= ws);
        assert(draws.subrange(0, m) =~= draws);
    }
}

/// Carries out one command on the stack.
pub fn perform(stack: &mut Stack, c: Command) -> (r: Result<(), Error>)
    ensures
        exists|d: i32|
            command_fits(old(stack)@, c, d) && (final(stack)@, r) == #[trigger] command_spec(
                old(stack)@,
                c,
                d,
            ),
{
    match c {
        Command::Push(e) => {
            let r = stack.push(e);
            assert(command_fits(old(stack)@, c, 0) && (final(stack)@, r) == command_spec(
                old(stack)@,
                c,
                0,
            ));
            r
        },
        Command::Apply(op) => {
            let ghost is_rand = op is Rand;
            let r = stack.eval(op);
            proof {
                if !is_rand {
                    assert(command_fits(old(stack)@, c, 0) && (final(stack)@, r) == command_spec(
                        old(stack)@,
                        c,
                        0,
                    ));
                } else {
                    let d = choose|d: i32|
                        draw_fits(old(stack)@, d) && (final(stack)@, r) == eval_spec(
                            old(stack)@,
                            op,
                            d,
                        );
                    assert(command_fits(old(stack)@, c, d) && (final(stack)@, r) == command_spec(
                        old(stack)@,
                        c,
                        d,
                    ));
                }
            }
            r
        },
        Command::Unknown => {
            assert(command_fits(old(stack)@, c, 0) && (final(stack)@, Err::<(), Error>(
                Error::Syntax,
            )) == command_spec(old(stack)@, c, 0));
            Err(Error::Syntax)
        },
    }
}

/// Evaluates each word of `buf` in turn on `stack`, stopping at the first
/// error, which is returned. Words are separated by Unicode white space. A
/// word that is neither `true`, `false`, `+`, `~`, `<->`, `=`, `#`, `quit`
/// nor a decimal `i32` is a `Syntax` error.
pub fn evaluate_line(stack: &mut Stack, buf: &String) -> (r: Result<(), Error>)
    ensures
        exists|sp: Seq<(usize, usize)>, draws: Seq<i32>|
            {
                &&& is_split(buf@, sp)
                &&& draws.len() == sp.len()
                &&& run_fits(old(stack)@, words_at(buf@, sp), draws)
                &&& (final(stack)@, r) == #[trigger] run(old(stack)@, words_at(buf@, sp), draws)
            },
{
    let line: &str = buf.as_str();
    let words = split_line(line);
    let ghost sp = choose|sp: Seq<(usize, usize)>|
        #[trigger] is_split(line@, sp) && words@.len() == sp.len() && forall|k: int|
            0 <= k < sp.len() ==> #[trigger] words@[k]@ == line@.subrange(
                sp[k].0 as int,
                sp[k].1 as int,
            );
    let ghost ws = words_at(buf@, sp);
    let ghost s0 = stack@;
    let ghost mut draws: Seq<i32> = Seq::empty();
    let mut k: usize = 0;
    proof {
        assert(ws.subrange(0, 0) =~= Seq::<Seq<char>>::empty());
    }
    while k < words.len()
        invariant
            line@ == buf@,
            s0 == old(stack)@,
            is_split(buf@, sp),
            words@.len() == sp.len(),
            forall|j: int|
                0 <= j < sp.len() ==> #[trigger] words@[j]@ == line@.subrange(
                    sp[j].0 as int,
                    sp[j].1 as int,
                ),
            ws == words_at(buf@, sp),
            0 <= k <= words@.len(),
            draws.len() == k,
            run(s0, ws.subrange(0, k as int), draws) == (stack@, Ok::<(), Error>(())),
            run_fits(s0, ws.subrange(0, k as int), draws),
        decreases words@.len() - k,
    {
        let w: &str = words[k].as_str();
        let b: &[u8] = w.as_bytes();
        let c = read_command(b, 0, b.len());
        let ghost before = stack@;
        let r = perform(stack, c);
        let ghost d = choose|d: i32|
            command_fits(before, c, d) && (stack@, r) == #[trigger] command_spec(before, c, d);
        proof {
            assert(b@.subrange(0, b@.len() as int) =~= b@);
            assert(ws[k as int] == words@[k as int]@);
            assert(b@ == encode_utf8(ws[k as int]));
            let w1 = ws.subrange(0, k + 1);
            assert(w1.drop_last() =~= ws.subrange(0, k as int));
            assert(draws.push(d).drop_last() =~= draws);
            assert(run(s0, w1, draws.push(d)) == (stack@, r));
            assert(run_fits(s0, w1, draws.push(d)));
            draws = draws.push(d);
        }
        if r.is_err() {
            proof {
                let full = draws + Seq::new((ws.len() - k - 1) as nat, |i: int| 0i32);
                assert(full.subrange(0, k + 1) =~= draws);
                assert(ws.len() == sp.len());
                assert(run(s0, ws.subrange(0, k + 1), full.subrange(0, k + 1)) == (stack@, r));
                lemma_run_stops(s0, ws, full, k + 1);
                assert(full.len() == sp.len());
                assert(run(s0, words_at(buf@, sp), full) == (stack@, r));
            }
            return r;
        }
        k = k + 1;
    }
    proof {
        assert(ws.subrange(0, k as int) =~= ws);
        assert(run(s0, words_at(buf@, sp), draws) == (stack@, Ok::<(), Error>(())));
    }
    Ok(())
}

} // verus!
