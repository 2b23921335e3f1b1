//! What a source shows of the operand stack where an instruction stands.
//!
//! Items are counted from the top of the stack, which is item zero. An item is
//! followed back through the instructions that stand before a place to the
//! number that was pushed, to the stack that the source declares for its main
//! body, or to the entry of a procedure. There it is what every call of the
//! procedure hands over.

use vstd::prelude::*;

use crate::text::is_text;
use crate::text::pieces;
use crate::text::same;
use crate::tracer::constants::bounded;
use crate::tracer::constants::constant_views;
use crate::tracer::constants::literal;
use crate::tracer::constants::number_at;
use crate::tracer::constants::read_literal;
use crate::tracer::constants::read_number;
use crate::tracer::constants::Constant;
use crate::tracer::constants::ConstantView;
use crate::tracer::tokens::at;
use crate::tracer::tokens::begins_quoted;
use crate::tracer::tokens::instructs;
use crate::tracer::tokens::is_at;
use crate::tracer::tokens::is_instruction;
use crate::tracer::tokens::is_part;
use crate::tracer::tokens::is_quoted;
use crate::tracer::tokens::part;

verus! {

/// How many items of the stack can be read.
pub const STACK_TOP: usize = 16;

/// The depth of the deepest nodes of a Merkle tree.
pub const TREE_DEPTH: u64 = 64;

/// How many wires of one kind a circuit has at most.
pub const WIRE_LIMIT: u64 = 0x3fff_ffff;

/// The largest value of 32 bits.
pub const LIMB_LIMIT: u64 = 0xffff_ffff;

/// What an item of the stack is, as far as the source shows it.
pub enum Origin {
    /// Nothing is known of it.
    Unknown,
    /// It is this number.
    Known(nat),
    /// It is an item of the stack at the entry of the procedure whose name
    /// stands at a place.
    Entry(int, nat),
}

/// An item of the stack that begins with the declared values, of which the last
/// is on top.
pub open spec fn stack_item(stack: Seq<u64>, k: nat) -> nat {
    if k < stack.len() {
        stack[stack.len() - 1 - k] as nat
    } else {
        0
    }
}

/// The place of the `push` that ends before a place, all of its values being
/// known.
pub open spec fn push_before(t: Seq<Seq<char>>, constants: Seq<ConstantView>, i: int) -> Option<int>
    decreases i,
{
    if i < 3 || at(t, i - 2) != Some("."@) || number_at(t, i - 1, constants) is None {
        None
    } else if instructs(t, i - 3, "push"@) {
        Some(i - 3)
    } else {
        push_before(t, constants, i - 2)
    }
}

/// The given number, or else another one.
pub open spec fn given(n: Option<nat>, other: nat) -> nat {
    match n {
        Some(v) => v,
        None => other,
    }
}

/// The item that an instruction makes the item `k`, where it moves items alone.
pub open spec fn moved(name: Seq<char>, n: Option<nat>, k: nat) -> Option<nat> {
    if name == "drop"@ && n is None {
        Some(k + 1)
    } else if name == "dropw"@ && n is None {
        Some(k + 4)
    } else if name == "dup"@ {
        if k == 0 {
            Some(given(n, 0))
        } else {
            Some((k - 1) as nat)
        }
    } else if name == "swap"@ {
        if k == 0 {
            Some(given(n, 1))
        } else if k == given(n, 1) {
            Some(0)
        } else {
            Some(k)
        }
    } else if name == "movup"@ && n is Some {
        if k == 0 {
            n
        } else if k <= n->0 {
            Some((k - 1) as nat)
        } else {
            Some(k)
        }
    } else if name == "movdn"@ && n is Some {
        if k == n->0 {
            Some(0)
        } else if k < n->0 {
            Some(k + 1)
        } else {
            Some(k)
        }
    } else {
        None
    }
}

/// What stands directly before a place.
pub enum Step {
    /// Nothing that is understood.
    Unknown,
    /// The beginning of the main body.
    Main,
    /// The head of a procedure, whose name stands at a place.
    Head(int),
    /// The `push` at a place.
    Values(int),
    /// `padw`.
    Zeros,
    /// The instruction of a name, with a number or not, at a place.
    Move(Seq<char>, Option<nat>, int),
}

/// What stands directly before a place.
pub open spec fn step_before(t: Seq<Seq<char>>, constants: Seq<ConstantView>, i: int) -> Step {
    if instructs(t, i - 1, "begin"@) {
        Step::Main
    } else if at(t, i - 2) == Some("."@) && at(t, i - 3) == Some("proc"@) {
        Step::Head(i - 1)
    } else if at(t, i - 2) == Some("."@) && at(t, i - 4) == Some("."@) && at(t, i - 5) == Some(
        "proc"@,
    ) {
        Step::Head(i - 3)
    } else if let Some(p) = push_before(t, constants, i) {
        Step::Values(p)
    } else if instructs(t, i - 1, "padw"@) {
        Step::Zeros
    } else if at(t, i - 2) == Some("."@) {
        if i < 3 || is_part(t, i - 3) || literal(t[i - 1]) is None {
            Step::Unknown
        } else {
            Step::Move(t[i - 3], literal(t[i - 1]), i - 3)
        }
    } else if is_part(t, i - 1) {
        Step::Unknown
    } else {
        Step::Move(t[i - 1], None, i - 1)
    }
}

/// What the item `k` of the stack is before the instruction at a place.
pub open spec fn traced(
    t: Seq<Seq<char>>,
    constants: Seq<ConstantView>,
    stack: Seq<u64>,
    i: int,
    k: nat,
) -> Origin
    decreases i,
{
    if i <= 0 || i > t.len() || k >= STACK_TOP {
        Origin::Unknown
    } else {
        match step_before(t, constants, i) {
            Step::Unknown => Origin::Unknown,
            Step::Main => Origin::Known(stack_item(stack, k)),
            Step::Head(p) => Origin::Entry(p, k),
            Step::Values(p) => if p < 0 || p >= i {
                Origin::Unknown
            } else if 2 * k < i - p - 1 {
                match number_at(t, i - 1 - 2 * k, constants) {
                    Some(v) => Origin::Known(v),
                    None => Origin::Unknown,
                }
            } else {
                traced(t, constants, stack, p, (k - (i - p - 1) / 2) as nat)
            },
            Step::Zeros => if k < 4 {
                Origin::Known(0)
            } else {
                traced(t, constants, stack, i - 1, (k - 4) as nat)
            },
            Step::Move(name, n, p) => match moved(name, n, k) {
                Some(j) => if p < 0 || p >= i {
                    Origin::Unknown
                } else {
                    traced(t, constants, stack, p, j)
                },
                None => Origin::Unknown,
            },
        }
    }
}

/// The token at `j` is no use of the procedure whose name stands at `p`, or it
/// is a call of it that hands over a number between the bounds as the item `k`.
/// A quoted text, which may be a name as well, is a message.
pub open spec fn site_fits(
    t: Seq<Seq<char>>,
    constants: Seq<ConstantView>,
    stack: Seq<u64>,
    p: int,
    j: int,
    k: nat,
    low: nat,
    high: nat,
) -> bool {
    &&& is_quoted(at(t, j)) ==> at(t, j - 1) == Some("="@)
    &&& at(t, j) == at(t, p) && j != p ==> {
        &&& at(t, j - 1) == Some("."@)
        &&& at(t, j - 2) == Some("exec"@) || at(t, j - 2) == Some("call"@)
        &&& at(t, j + 1) != Some("::"@)
        &&& traced(t, constants, stack, j - 2, k) matches Origin::Known(v) && low <= v <= high
    }
}

/// Every use of the procedure whose name stands at `p` is a call that hands over
/// a number between the bounds as the item `k`.
pub open spec fn sites_fit(
    t: Seq<Seq<char>>,
    constants: Seq<ConstantView>,
    stack: Seq<u64>,
    p: int,
    k: nat,
    low: nat,
    high: nat,
) -> bool {
    forall|j: int|
        0 <= j < t.len() ==> #[trigger] site_fits(t, constants, stack, p, j, k, low, high)
}

/// The item `k` of the stack is a number between the bounds whenever the
/// instruction at a place is carried out.
pub open spec fn within(
    t: Seq<Seq<char>>,
    constants: Seq<ConstantView>,
    stack: Seq<u64>,
    i: int,
    k: nat,
    low: nat,
    high: nat,
) -> bool {
    match traced(t, constants, stack, i, k) {
        Origin::Unknown => false,
        Origin::Known(v) => low <= v <= high,
        Origin::Entry(p, n) => sites_fit(t, constants, stack, p, n, low, high),
    }
}

/// The `adv` instruction of the given name stands at a place.
pub open spec fn advises(t: Seq<Seq<char>>, i: int, name: Seq<char>) -> bool {
    instructs(t, i, "adv"@) && at(t, i + 1) == Some("."@) && at(t, i + 2) == Some(name)
}

/// The instruction at a place finds on the stack what the VM can work on: the
/// depth of a node of a Merkle tree lies between one and 64, and may be zero
/// where the node is only looked up; the wires of a circuit are not too many;
/// and the lower half of a dividend has at most 32 bits.
pub open spec fn operands_fit(
    t: Seq<Seq<char>>,
    constants: Seq<ConstantView>,
    stack: Seq<u64>,
    i: int,
) -> bool {
    &&& instructs(t, i, "mtree_get"@) || instructs(t, i, "mtree_set"@) ==> within(
        t,
        constants,
        stack,
        i,
        0,
        1,
        TREE_DEPTH as nat,
    )
    &&& instructs(t, i, "mtree_verify"@) ==> within(
        t,
        constants,
        stack,
        i,
        4,
        1,
        TREE_DEPTH as nat,
    )
    &&& advises(t, i, "push_mtnode"@) ==> within(
        t,
        constants,
        stack,
        i,
        0,
        0,
        TREE_DEPTH as nat,
    )
    &&& advises(t, i, "push_falcon_div"@) ==> within(
        t,
        constants,
        stack,
        i,
        1,
        0,
        LIMB_LIMIT as nat,
    )
    &&& instructs(t, i, "arithmetic_circuit_eval"@) ==> {
        &&& within(t, constants, stack, i, 1, 0, WIRE_LIMIT as nat)
        &&& within(t, constants, stack, i, 2, 0, WIRE_LIMIT as nat)
    }
}

/// What an item of the stack is.
#[derive(Clone, Copy)]
enum Item {
    Unknown,
    Known(u64),
    Entry(usize, usize),
}

impl View for Item {
    type V = Origin;

    closed spec fn view(&self) -> Origin {
        match self {
            Item::Unknown => Origin::Unknown,
            Item::Known(v) => Origin::Known(*v as nat),
            Item::Entry(p, k) => Origin::Entry(*p as int, *k as nat),
        }
    }
}

fn read_stack_item(stack: &Vec<u64>, k: usize) -> (r: u64)
    ensures
        r == stack_item(stack@, k as nat),
{
    if k < stack.len() {
        stack[stack.len() - 1 - k]
    } else {
        0
    }
}

fn find_push(t: &Vec<&[char]>, constants: &Vec<Constant>, from: usize) -> (r: Option<usize>)
    requires
        from <= t@.len(),
        bounded(constants@),
    ensures
        match r {
            Some(p) => push_before(pieces(t@), constant_views(constants@), from as int) == Some(
                p as int,
            ) && p + 3 <= from,
            None => push_before(pieces(t@), constant_views(constants@), from as int) is None,
        },
{
    let ghost all = pieces(t@);
    let ghost cs = constant_views(constants@);
    let mut i: usize = from;
    while i >= 3 && is_at(t, i - 2, 0, ".") && read_number(t, i - 1, 0, constants).is_some()
        invariant
            i <= from <= t.len(),
            all == pieces(t@),
            cs == constant_views(constants@),
            bounded(constants@),
            push_before(all, cs, from as int) == push_before(all, cs, i as int),
        decreases i,
    {
        if is_instruction(t, i - 3, "push") {
            return Some(i - 3);
        }
        i -= 2;
    }
    None
}

/// The item that becomes the item `k`, if it is one of those that can be read.
fn item_moved(name: &[char], n: Option<u64>, k: usize) -> (r: Option<usize>)
    requires
        k < STACK_TOP,
    ensures
        match r {
            Some(j) => moved(name@, number_view(n), k as nat) == Some(j as nat),
            None => moved(name@, number_view(n), k as nat) matches Some(j) ==> j >= STACK_TOP,
        },
{
    let far: Option<usize> = match n {
        Some(n) => if n < 16 {
            Some(n as usize)
        } else {
            Some(16)
        },
        None => None,
    };
    let j: usize = if is_text(name, "drop") && n.is_none() {
        k + 1
    } else if is_text(name, "dropw") && n.is_none() {
        k + 4
    } else if is_text(name, "dup") {
        if k == 0 {
            match far {
                Some(n) => n,
                None => 0,
            }
        } else {
            k - 1
        }
    } else if is_text(name, "swap") {
        let other: usize = match far {
            Some(n) => n,
            None => 1,
        };
        if k == 0 {
            other
        } else if k == other {
            0
        } else {
            k
        }
    } else {
        let other: usize = match far {
            Some(n) => n,
            None => {
                return None;
            },
        };
        if is_text(name, "movup") {
            if k == 0 {
                other
            } else if k <= other {
                k - 1
            } else {
                k
            }
        } else if is_text(name, "movdn") {
            if k == other {
                0
            } else if k < other {
                k + 1
            } else {
                k
            }
        } else {
            return None;
        }
    };
    if j < STACK_TOP {
        Some(j)
    } else {
        None
    }
}

spec fn number_view(n: Option<u64>) -> Option<nat> {
    match n {
        Some(n) => Some(n as nat),
        None => None,
    }
}

/// What stands directly before a place.
enum Before<'a> {
    Unknown,
    Main,
    Head(usize),
    Values(usize),
    Zeros,
    Move(&'a [char], Option<u64>, usize),
}

impl<'a> View for Before<'a> {
    type V = Step;

    closed spec fn view(&self) -> Step {
        match self {
            Before::Unknown => Step::Unknown,
            Before::Main => Step::Main,
            Before::Head(p) => Step::Head(*p as int),
            Before::Values(p) => Step::Values(*p as int),
            Before::Zeros => Step::Zeros,
            Before::Move(name, n, p) => Step::Move(name@, number_view(*n), *p as int),
        }
    }
}

fn read_before<'a>(t: &Vec<&'a [char]>, constants: &Vec<Constant>, i: usize) -> (r: Before<'a>)
    requires
        0 < i <= t@.len(),
        bounded(constants@),
    ensures
        r@ == step_before(pieces(t@), constant_views(constants@), i as int),
        match r {
            Before::Head(p) => p < t@.len(),
            Before::Values(p) => p + 3 <= i,
            Before::Move(_, _, p) => p < i,
            _ => true,
        },
{
    let dotted = i >= 2 && is_at(t, i - 2, 0, ".");
    if is_instruction(t, i - 1, "begin") {
        Before::Main
    } else if dotted && i >= 3 && is_at(t, i - 3, 0, "proc") {
        Before::Head(i - 1)
    } else if dotted && i >= 5 && is_at(t, i - 4, 0, ".") && is_at(t, i - 5, 0, "proc") {
        Before::Head(i - 3)
    } else if let Some(p) = find_push(t, constants, i) {
        Before::Values(p)
    } else if is_instruction(t, i - 1, "padw") {
        Before::Zeros
    } else if dotted {
        if i < 3 || part(t, i - 3) {
            return Before::Unknown;
        }
        match read_literal(t[i - 1]) {
            Some(n) => Before::Move(t[i - 3], Some(n), i - 3),
            None => Before::Unknown,
        }
    } else if part(t, i - 1) {
        Before::Unknown
    } else {
        Before::Move(t[i - 1], None, i - 1)
    }
}

fn trace_item(
    t: &Vec<&[char]>,
    constants: &Vec<Constant>,
    stack: &Vec<u64>,
    from: usize,
    item: usize,
) -> (r: Item)
    requires
        from <= t@.len(),
        bounded(constants@),
    ensures
        r@ == traced(pieces(t@), constant_views(constants@), stack@, from as int, item as nat),
        r matches Item::Entry(p, _) ==> p < t@.len(),
{
    let ghost all = pieces(t@);
    let ghost cs = constant_views(constants@);
    let mut i: usize = from;
    let mut k: usize = item;
    while i > 0 && k < STACK_TOP
        invariant
            i <= t.len(),
            all == pieces(t@),
            cs == constant_views(constants@),
            bounded(constants@),
            traced(all, cs, stack@, from as int, item as nat) == traced(
                all,
                cs,
                stack@,
                i as int,
                k as nat,
            ),
        decreases i,
    {
        match read_before(t, constants, i) {
            Before::Unknown => {
                return Item::Unknown;
            },
            Before::Main => {
                return Item::Known(read_stack_item(stack, k));
            },
            Before::Head(p) => {
                return Item::Entry(p, k);
            },
            Before::Values(p) => {
                if 2 * k < i - p - 1 {
                    return match read_number(t, i - 1 - 2 * k, 0, constants) {
                        Some(v) => Item::Known(v),
                        None => Item::Unknown,
                    };
                }
                k = k - (i - p - 1) / 2;
                i = p;
            },
            Before::Zeros => {
                if k < 4 {
                    return Item::Known(0);
                }
                i -= 1;
                k -= 4;
            },
            Before::Move(name, n, p) => match item_moved(name, n, k) {
                Some(j) => {
                    i = p;
                    k = j;
                },
                None => {
                    proof {
                        if let Some(j) = moved(name@, number_view(n), k as nat) {
                            assert(traced(all, cs, stack@, p as int, j) is Unknown);
                        }
                    }
                    return Item::Unknown;
                },
            },
        }
    }
    Item::Unknown
}

fn fits_site(
    t: &Vec<&[char]>,
    constants: &Vec<Constant>,
    stack: &Vec<u64>,
    p: usize,
    j: usize,
    k: usize,
    low: u64,
    high: u64,
) -> (r: bool)
    requires
        p < t@.len(),
        j < t@.len(),
        bounded(constants@),
    ensures
        r == site_fits(
            pieces(t@),
            constant_views(constants@),
            stack@,
            p as int,
            j as int,
            k as nat,
            low as nat,
            high as nat,
        ),
{
    if begins_quoted(t[j]) && !(j >= 1 && is_at(t, j - 1, 0, "=")) {
        return false;
    }
    if j == p || !same(t[j], t[p]) {
        return true;
    }
    if j < 2 || !is_at(t, j - 1, 0, ".") || is_at(t, j, 1, "::") {
        return false;
    }
    if !is_at(t, j - 2, 0, "exec") && !is_at(t, j - 2, 0, "call") {
        return false;
    }
    match trace_item(t, constants, stack, j - 2, k) {
        Item::Known(v) => low <= v && v <= high,
        _ => false,
    }
}

fn fit_sites(
    t: &Vec<&[char]>,
    constants: &Vec<Constant>,
    stack: &Vec<u64>,
    p: usize,
    k: usize,
    low: u64,
    high: u64,
) -> (r: bool)
    requires
        p < t@.len(),
        bounded(constants@),
    ensures
        r == sites_fit(
            pieces(t@),
            constant_views(constants@),
            stack@,
            p as int,
            k as nat,
            low as nat,
            high as nat,
        ),
{
    let ghost all = pieces(t@);
    let ghost cs = constant_views(constants@);
    let mut j: usize = 0;
    while j < t.len()
        invariant
            j <= t.len(),
            p < t.len(),
            all == pieces(t@),
            cs == constant_views(constants@),
            bounded(constants@),
            forall|m: int|
                0 <= m < j ==> #[trigger] site_fits(
                    all,
                    cs,
                    stack@,
                    p as int,
                    m,
                    k as nat,
                    low as nat,
                    high as nat,
                ),
        decreases t.len() - j,
    {
        if !fits_site(t, constants, stack, p, j, k, low, high) {
            assert(all.len() == t@.len());
            assert(!site_fits(
                all,
                cs,
                stack@,
                p as int,
                j as int,
                k as nat,
                low as nat,
                high as nat,
            ));
            return false;
        }
        j += 1;
    }
    true
}

fn is_within(
    t: &Vec<&[char]>,
    constants: &Vec<Constant>,
    stack: &Vec<u64>,
    i: usize,
    k: usize,
    low: u64,
    high: u64,
) -> (r: bool)
    requires
        i < t@.len(),
        bounded(constants@),
    ensures
        r == within(
            pieces(t@),
            constant_views(constants@),
            stack@,
            i as int,
            k as nat,
            low as nat,
            high as nat,
        ),
{
    match trace_item(t, constants, stack, i, k) {
        Item::Unknown => false,
        Item::Known(v) => low <= v && v <= high,
        Item::Entry(p, n) => fit_sites(t, constants, stack, p, n, low, high),
    }
}

fn is_advice(t: &Vec<&[char]>, i: usize, name: &str) -> (r: bool)
    requires
        i < t@.len(),
    ensures
        r == advises(pieces(t@), i as int, name@),
{
    is_instruction(t, i, "adv") && is_at(t, i, 1, ".") && is_at(t, i, 2, name)
}

/// The instruction at `i` finds on the stack what the VM can work on.
pub(crate) fn do_operands_fit(
    t: &Vec<&[char]>,
    constants: &Vec<Constant>,
    stack: &Vec<u64>,
    i: usize,
) -> (r: bool)
    requires
        i < t@.len(),
        bounded(constants@),
    ensures
        r == operands_fit(pieces(t@), constant_views(constants@), stack@, i as int),
{
    let node = !(is_instruction(t, i, "mtree_get") || is_instruction(t, i, "mtree_set"))
        || is_within(t, constants, stack, i, 0, 1, TREE_DEPTH);
    let leaf = !is_instruction(t, i, "mtree_verify") || is_within(
        t,
        constants,
        stack,
        i,
        4,
        1,
        TREE_DEPTH,
    );
    let lookup = !is_advice(t, i, "push_mtnode") || is_within(
        t,
        constants,
        stack,
        i,
        0,
        0,
        TREE_DEPTH,
    );
    let dividend = !is_advice(t, i, "push_falcon_div") || is_within(
        t,
        constants,
        stack,
        i,
        1,
        0,
        LIMB_LIMIT,
    );
    let circuit = !is_instruction(t, i, "arithmetic_circuit_eval") || (is_within(
        t,
        constants,
        stack,
        i,
        1,
        0,
        WIRE_LIMIT,
    ) && is_within(t, constants, stack, i, 2, 0, WIRE_LIMIT));
    node && leaf && lookup && dividend && circuit
}

} // verus!
