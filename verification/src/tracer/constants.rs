//! The constants of a source and what they stand for.

use vstd::arithmetic::div_mod::lemma_mul_mod_noop_left;
use vstd::arithmetic::div_mod::lemma_mul_mod_noop_right;
use vstd::arithmetic::div_mod::lemma_small_mod;
use vstd::prelude::*;
use vstd::slice::slice_subrange;

use crate::number::parse;
use crate::number::parsed;
use crate::text::pieces;
use crate::text::same;
use crate::text::starts_with;
use crate::tracer::tokens::at;
use crate::tracer::tokens::begins_name;
use crate::tracer::tokens::begins_quoted;
use crate::tracer::tokens::is_at;
use crate::tracer::tokens::is_name;
use crate::tracer::tokens::is_operator;
use crate::tracer::tokens::is_quoted;
use crate::tracer::tokens::operator_at;
use crate::tracer::vm::divide;
use crate::tracer::vm::MODULUS;

verus! {

/// The field element that a number stands for: in radix ten, in radix sixteen
/// with at most sixteen digits, or in radix two with at most thirty-two.
pub open spec fn literal(s: Seq<char>) -> Option<nat> {
    if "0x"@.is_prefix_of(s) {
        if s.len() <= 18 {
            parsed(s.skip(2), 16, (MODULUS - 1) as nat)
        } else {
            None
        }
    } else if "0b"@.is_prefix_of(s) {
        if s.len() <= 34 {
            parsed(s.skip(2), 2, (MODULUS - 1) as nat)
        } else {
            None
        }
    } else {
        parsed(s, 10, (MODULUS - 1) as nat)
    }
}

/// What a constant stands for: a text, or a number that is known or not.
pub enum MeaningView {
    Text,
    Number(Option<nat>),
}

/// A constant of a source.
pub struct ConstantView {
    pub name: Seq<char>,
    pub meaning: MeaningView,
}

/// What a name stands for: its first definition counts.
pub open spec fn meaning_of(constants: Seq<ConstantView>, name: Seq<char>) -> Option<MeaningView>
    decreases constants.len(),
{
    if constants.len() == 0 {
        None
    } else {
        match meaning_of(constants.drop_last(), name) {
            Some(m) => Some(m),
            None => if constants.last().name == name {
                Some(constants.last().meaning)
            } else {
                None
            },
        }
    }
}

/// The number at a place: a literal, or a name that stands for one.
pub open spec fn number_at(t: Seq<Seq<char>>, i: int, constants: Seq<ConstantView>) -> Option<nat> {
    match at(t, i) {
        None => None,
        Some(s) => if is_name(Some(s)) {
            match meaning_of(constants, s) {
                Some(MeaningView::Number(v)) => v,
                _ => None,
            }
        } else {
            literal(s)
        },
    }
}

/// The sum or the difference of two field elements.
pub open spec fn combined(sum: nat, product: nat, minus: bool) -> nat {
    if minus {
        ((sum + MODULUS - product) % (MODULUS as int)) as nat
    } else {
        (sum + product) % (MODULUS as nat)
    }
}

/// The product of `q` and `b` is `a` in the field.
pub open spec fn multiplies_to(q: nat, b: nat, a: nat) -> bool {
    q < MODULUS && (q * b) % (MODULUS as nat) == a
}

/// The quotient of two field elements.
pub open spec fn quotient(a: nat, b: nat) -> nat {
    choose|q: nat| multiplies_to(q, b, a)
}

/// The value of the number or the bracketed expression that begins at a place,
/// and the place behind it.
pub open spec fn operand_at(t: Seq<Seq<char>>, i: int, constants: Seq<ConstantView>) -> Option<
    (nat, int),
>
    decreases t.len() - i, 0nat,
{
    if i < 0 || i >= t.len() {
        None
    } else if at(t, i) == Some("("@) {
        match value_at(t, i + 1, constants) {
            Some((v, j)) => if at(t, j) == Some(")"@) {
                Some((v, j + 1))
            } else {
                None
            },
            None => None,
        }
    } else {
        match number_at(t, i, constants) {
            Some(v) => Some((v, i + 1)),
            None => None,
        }
    }
}

/// The value of an expression of which `sum` and then `product` have been
/// read, and which goes on with an operator or ends, and the place behind it.
pub open spec fn value_from(
    t: Seq<Seq<char>>,
    i: int,
    constants: Seq<ConstantView>,
    sum: nat,
    product: nat,
    minus: bool,
) -> Option<(nat, int)>
    decreases t.len() - i, 0nat,
{
    if i < 0 || i >= t.len() || !is_operator(at(t, i)) {
        Some((combined(sum, product, minus), i))
    } else {
        match operand_at(t, i + 1, constants) {
            None => None,
            Some((v, j)) => if j <= i || j > t.len() {
                None
            } else if at(t, i) == Some("*"@) {
                value_from(t, j, constants, sum, product * v % (MODULUS as nat), minus)
            } else if at(t, i) == Some("//"@) {
                if v == 0 {
                    None
                } else {
                    value_from(t, j, constants, sum, product / v, minus)
                }
            } else if at(t, i) == Some("/"@) {
                if v == 0 {
                    None
                } else {
                    value_from(t, j, constants, sum, quotient(product, v), minus)
                }
            } else {
                value_from(
                    t,
                    j,
                    constants,
                    combined(sum, product, minus),
                    v,
                    at(t, i) == Some("-"@),
                )
            },
        }
    }
}

/// The value of the expression that begins at a place, and the place behind it.
pub open spec fn value_at(t: Seq<Seq<char>>, i: int, constants: Seq<ConstantView>) -> Option<
    (nat, int),
>
    decreases t.len() - i, 1nat,
{
    match operand_at(t, i, constants) {
        Some((v, j)) => if i < j <= t.len() {
            value_from(t, j, constants, 0, v, false)
        } else {
            None
        },
        None => None,
    }
}

/// The place behind opening brackets.
pub open spec fn unopened(t: Seq<Seq<char>>, i: int) -> int
    decreases t.len() - i,
{
    if i < t.len() && at(t, i) == Some("("@) {
        unopened(t, i + 1)
    } else {
        i
    }
}

/// The place behind closing brackets.
pub open spec fn unclosed(t: Seq<Seq<char>>, i: int) -> int
    decreases t.len() - i,
{
    if i < t.len() && at(t, i) == Some(")"@) {
        unclosed(t, i + 1)
    } else {
        i
    }
}

/// What the expression at a place stands for.
pub open spec fn expression_at(t: Seq<Seq<char>>, i: int, constants: Seq<ConstantView>) -> MeaningView {
    if is_quoted(at(t, unopened(t, i))) {
        MeaningView::Text
    } else {
        MeaningView::Number(
            match value_at(t, i, constants) {
                Some((v, _)) => Some(v),
                None => None,
            },
        )
    }
}

/// A constant is defined at a place.
pub open spec fn defines(t: Seq<Seq<char>>, i: int) -> bool {
    &&& at(t, i) == Some("const"@)
    &&& at(t, i + 1) == Some("."@)
    &&& is_name(at(t, i + 2))
    &&& at(t, i + 3) == Some("="@)
}

/// The constants that are defined at the first `n` places.
pub open spec fn constants_in(t: Seq<Seq<char>>, n: int) -> Seq<ConstantView>
    decreases n,
{
    if n <= 0 {
        seq![]
    } else {
        let earlier = constants_in(t, n - 1);
        if defines(t, n - 1) {
            earlier.push(
                ConstantView {
                    name: t[n + 1],
                    meaning: expression_at(t, n + 3, earlier),
                },
            )
        } else {
            earlier
        }
    }
}

/// What a constant stands for.
#[derive(Clone, Copy)]
pub enum Meaning {
    Text,
    Number(Option<u64>),
}

impl View for Meaning {
    type V = MeaningView;

    open spec fn view(&self) -> MeaningView {
        match self {
            Meaning::Text => MeaningView::Text,
            Meaning::Number(Some(v)) => MeaningView::Number(Some(*v as nat)),
            Meaning::Number(None) => MeaningView::Number(None),
        }
    }
}

/// A constant of a source.
pub struct Constant<'a> {
    pub name: &'a [char],
    pub meaning: Meaning,
}

pub open spec fn constant_views(v: Seq<Constant>) -> Seq<ConstantView> {
    v.map_values(|c: Constant| ConstantView { name: c.name@, meaning: c.meaning@ })
}

/// All numbers are field elements.
pub open spec fn bounded(v: Seq<Constant>) -> bool {
    forall|i: int|
        0 <= i < v.len() ==> ((#[trigger] v[i]).meaning matches Meaning::Number(Some(n)) ==> n
            < MODULUS)
}

pub(crate) fn find_meaning(constants: &Vec<Constant>, name: &[char]) -> (r: Option<Meaning>)
    requires
        bounded(constants@),
    ensures
        match r {
            Some(m) => meaning_of(constant_views(constants@), name@) == Some(m@) && (
            m matches Meaning::Number(Some(n)) ==> n < MODULUS),
            None => meaning_of(constant_views(constants@), name@) is None,
        },
{
    let ghost all = constant_views(constants@);
    let mut i: usize = 0;
    assert(all.take(0) =~= seq![]);
    while i < constants.len()
        invariant
            i <= constants.len(),
            all == constant_views(constants@),
            meaning_of(all.take(i as int), name@) is None,
            bounded(constants@),
        decreases constants.len() - i,
    {
        assert(all.take(i + 1).drop_last() =~= all.take(i as int));
        if same(constants[i].name, name) {
            proof {
                lemma_meaning_kept(all, i + 1, name@);
            }
            assert(all[i as int].meaning == constants@[i as int].meaning@);
            return Some(constants[i].meaning);
        }
        i += 1;
    }
    assert(all.take(i as int) =~= all);
    None
}

proof fn lemma_meaning_kept(constants: Seq<ConstantView>, n: int, name: Seq<char>)
    requires
        0 <= n <= constants.len(),
        meaning_of(constants.take(n), name) is Some,
    ensures
        meaning_of(constants, name) == meaning_of(constants.take(n), name),
    decreases constants.len(),
{
    if n == constants.len() {
        assert(constants.take(n) =~= constants);
    } else {
        assert(constants.drop_last().take(n) =~= constants.take(n));
        lemma_meaning_kept(constants.drop_last(), n, name);
    }
}

pub(crate) fn read_literal(s: &[char]) -> (r: Option<u64>)
    ensures
        match r {
            Some(v) => literal(s@) == Some(v as nat) && v < MODULUS,
            None => literal(s@) is None,
        },
{
    proof {
        reveal_strlit("0x");
        reveal_strlit("0b");
    }
    if starts_with(s, "0x") {
        if s.len() > 18 {
            return None;
        }
        let tail = slice_subrange(s, 2, s.len());
        assert(tail@ =~= s@.skip(2));
        parse(tail, 16, MODULUS - 1)
    } else if starts_with(s, "0b") {
        if s.len() > 34 {
            return None;
        }
        let tail = slice_subrange(s, 2, s.len());
        assert(tail@ =~= s@.skip(2));
        parse(tail, 2, MODULUS - 1)
    } else {
        parse(s, 10, MODULUS - 1)
    }
}

/// The number `k` places behind `i`.
pub(crate) fn read_number(t: &Vec<&[char]>, i: usize, k: usize, constants: &Vec<Constant>) -> (r: Option<u64>)
    requires
        i <= t@.len(),
        bounded(constants@),
    ensures
        match r {
            Some(v) => number_at(pieces(t@), i + k, constant_views(constants@)) == Some(v as nat)
                && v < MODULUS,
            None => number_at(pieces(t@), i + k, constant_views(constants@)) is None,
        },
{
    if k >= t.len() - i {
        return None;
    }
    let s = t[i + k];
    if begins_name(s) {
        match find_meaning(constants, s) {
            Some(Meaning::Number(v)) => v,
            _ => None,
        }
    } else {
        read_literal(s)
    }
}

fn combine(sum: u64, product: u64, minus: bool) -> (r: u64)
    requires
        sum < MODULUS,
        product < MODULUS,
    ensures
        r == combined(sum as nat, product as nat, minus),
        r < MODULUS,
{
    let total: u128 = if minus {
        sum as u128 + MODULUS as u128 - product as u128
    } else {
        sum as u128 + product as u128
    };
    (total % (MODULUS as u128)) as u64
}

proof fn lemma_factor(x: nat, b: nat, w: nat)
    requires
        x < MODULUS,
        multiplies_to(w, b, 1),
    ensures
        x == (((x * b) % (MODULUS as nat)) * w) % (MODULUS as nat),
{
    let m = MODULUS as int;
    lemma_mul_mod_noop_left((x * b) as int, w as int, m);
    lemma_mul_mod_noop_right(x as int, (w * b) as int, m);
    assert((x * b) * w == x * (w * b)) by (nonlinear_arith);
    lemma_small_mod(x, MODULUS as nat);
}

proof fn lemma_one_quotient(q: nat, p: nat, b: nat, w: nat)
    requires
        q < MODULUS,
        p < MODULUS,
        (q * b) % (MODULUS as nat) == (p * b) % (MODULUS as nat),
        multiplies_to(w, b, 1),
    ensures
        q == p,
{
    lemma_factor(q, b, w);
    lemma_factor(p, b, w);
}

/// The quotient of two field elements.
fn quotient_of(a: u64, b: u64) -> (r: u64)
    requires
        a < MODULUS,
        0 < b < MODULUS,
    ensures
        r == quotient(a as nat, b as nat),
        r < MODULUS,
{
    let q: u64 = divide(a, b);
    let w: u64 = divide(1, b);
    proof {
        assert(multiplies_to(q as nat, b as nat, a as nat));
        let p = quotient(a as nat, b as nat);
        assert(multiplies_to(p, b as nat, a as nat));
        lemma_one_quotient(q as nat, p, b as nat, w as nat);
    }
    q
}

/// The value of the number or the bracketed expression at `from`, and the
/// place behind it.
pub(crate) fn read_operand(t: &Vec<&[char]>, from: usize, constants: &Vec<Constant>) -> (r: Option<
    (u64, usize),
>)
    requires
        from <= t@.len(),
        bounded(constants@),
    ensures
        match r {
            Some((v, j)) => operand_at(pieces(t@), from as int, constant_views(constants@)) == Some(
                (v as nat, j as int),
            ) && v < MODULUS && from < j <= t@.len(),
            None => operand_at(pieces(t@), from as int, constant_views(constants@)) is None,
        },
    decreases t@.len() - from, 0nat,
{
    if from == t.len() {
        return None;
    }
    if is_at(t, from, 0, "(") {
        match read_value(t, from + 1, constants) {
            Some((v, j)) => if is_at(t, j, 0, ")") {
                Some((v, j + 1))
            } else {
                None
            },
            None => None,
        }
    } else {
        match read_number(t, from, 0, constants) {
            Some(v) => Some((v, from + 1)),
            None => None,
        }
    }
}

/// The value of the expression at `from`, and the place behind it.
fn read_value(t: &Vec<&[char]>, from: usize, constants: &Vec<Constant>) -> (r: Option<
    (u64, usize),
>)
    requires
        from <= t@.len(),
        bounded(constants@),
    ensures
        match r {
            Some((v, j)) => value_at(pieces(t@), from as int, constant_views(constants@)) == Some(
                (v as nat, j as int),
            ) && v < MODULUS && from < j <= t@.len(),
            None => value_at(pieces(t@), from as int, constant_views(constants@)) is None,
        },
    decreases t@.len() - from, 1nat,
{
    let ghost all = pieces(t@);
    let ghost cs = constant_views(constants@);
    let (first, next): (u64, usize) = match read_operand(t, from, constants) {
        Some(r) => r,
        None => {
            return None;
        },
    };
    let mut product: u64 = first;
    let mut sum: u64 = 0;
    let mut minus: bool = false;
    let mut i: usize = next;
    while i < t.len() && operator_at(t, i)
        invariant
            from < i <= t.len(),
            all == pieces(t@),
            cs == constant_views(constants@),
            bounded(constants@),
            sum < MODULUS,
            product < MODULUS,
            value_at(all, from as int, cs) == value_from(
                all,
                i as int,
                cs,
                sum as nat,
                product as nat,
                minus,
            ),
        decreases t.len() - i,
    {
        let (v, next): (u64, usize) = match read_operand(t, i + 1, constants) {
            Some(r) => r,
            None => {
                return None;
            },
        };
        if is_at(t, i, 0, "*") {
            assert(product * v <= 0xffff_ffff_ffff_ffff * 0xffff_ffff_ffff_ffff)
                by (nonlinear_arith)
                requires
                    0 <= product <= 0xffff_ffff_ffff_ffff,
                    0 <= v <= 0xffff_ffff_ffff_ffff,
            ;
            product = ((product as u128 * v as u128) % (MODULUS as u128)) as u64;
        } else if is_at(t, i, 0, "//") {
            if v == 0 {
                return None;
            }
            assert(product / v <= product) by (nonlinear_arith)
                requires
                    v > 0,
            ;
            product = product / v;
        } else if is_at(t, i, 0, "/") {
            if v == 0 {
                return None;
            }
            product = quotient_of(product, v);
        } else {
            sum = combine(sum, product, minus);
            minus = is_at(t, i, 0, "-");
            product = v;
        }
        i = next;
    }
    Some((combine(sum, product, minus), i))
}

pub(crate) fn skip_tokens(t: &Vec<&[char]>, from: usize, bracket: &str) -> (r: usize)
    requires
        from <= t@.len(),
        bracket@ == "("@ || bracket@ == ")"@,
    ensures
        r <= t@.len(),
        bracket@ == "("@ ==> r == unopened(pieces(t@), from as int),
        bracket@ == ")"@ ==> r == unclosed(pieces(t@), from as int),
{
    let ghost all = pieces(t@);
    let mut i: usize = from;
    while i < t.len() && is_at(t, i, 0, bracket)
        invariant
            from <= i <= t.len(),
            all == pieces(t@),
            bracket@ == "("@ ==> unopened(all, from as int) == unopened(all, i as int),
            bracket@ == ")"@ ==> unclosed(all, from as int) == unclosed(all, i as int),
        decreases t.len() - i,
    {
        i += 1;
    }
    i
}

fn read_expression(t: &Vec<&[char]>, from: usize, constants: &Vec<Constant>) -> (r: Meaning)
    requires
        from <= t@.len(),
        bounded(constants@),
    ensures
        r@ == expression_at(pieces(t@), from as int, constant_views(constants@)),
        r matches Meaning::Number(Some(n)) ==> n < MODULUS,
{
    let first: usize = skip_tokens(t, from, "(");
    if first < t.len() && begins_quoted(t[first]) {
        Meaning::Text
    } else {
        Meaning::Number(
            match read_value(t, from, constants) {
                Some((v, _)) => Some(v),
                None => None,
            },
        )
    }
}

/// A constant is defined at `i`.
pub(crate) fn is_definition(t: &Vec<&[char]>, i: usize) -> (r: bool)
    requires
        i <= t@.len(),
    ensures
        r == defines(pieces(t@), i as int),
{
    is_at(t, i, 0, "const") && is_at(t, i, 1, ".") && t.len() - i > 2 && begins_name(t[i + 2])
        && is_at(t, i, 3, "=")
}

pub(crate) fn read_constants<'a>(t: &Vec<&'a [char]>) -> (r: Vec<Constant<'a>>)
    ensures
        constant_views(r@) == constants_in(pieces(t@), t@.len() as int),
        bounded(r@),
{
    let ghost all = pieces(t@);
    let mut out: Vec<Constant<'a>> = Vec::new();
    let mut i: usize = 0;
    assert(constant_views(out@) =~= seq![]);
    while i < t.len()
        invariant
            i <= t.len(),
            all == pieces(t@),
            constant_views(out@) == constants_in(all, i as int),
            bounded(out@),
        decreases t.len() - i,
    {
        let ghost earlier = constant_views(out@);
        if is_definition(t, i) {
            let meaning = read_expression(t, i + 4, &out);
            let ghost before = out@;
            out.push(Constant { name: t[i + 2], meaning });
            assert(constant_views(out@) =~= earlier.push(
                ConstantView { name: all[i + 2], meaning: meaning@ },
            ));
            assert forall|k: int| 0 <= k < out@.len() implies ((
            #[trigger] out@[k]).meaning matches Meaning::Number(Some(n)) ==> n < MODULUS) by {
                if k < before.len() {
                    assert(out@[k] == before[k]);
                }
            }
        }
        i += 1;
    }
    out
}

} // verus!
