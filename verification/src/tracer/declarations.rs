//! The inputs that a program declares in its comments.
//!
//! `# operand_stack:`, `# advice_stack:`, `# advice_map:` and
//! `# merkle_tree:` lines carry values; a `# kernel_module:` line opens the
//! source of a kernel.

use vstd::prelude::*;
use vstd::slice::slice_subrange;
use vstd::string::StringExecFns;

use crate::number::parse;
use crate::number::parsed;
use crate::text::chars_of;
use crate::text::cut;
use crate::text::find_from;
use crate::text::is_text;
use crate::text::trimmed_end;
use crate::text::lemma_trimmed_end_twice;
use crate::text::lemma_trimmed_end_joined;
use crate::text::lemma_one_line;
use crate::text::lemma_lines_line_feed;
use crate::text::is_space;
use crate::text::lemma_lines_joined;
use crate::text::lines;
use crate::text::lines_of;
use crate::text::pieces;
use crate::text::split;
use crate::text::split_on;
use crate::text::string_of;
use crate::text::strip_prefix;
use crate::text::trim;
use crate::text::trim_start;
use crate::text::trimmed;
use crate::text::trimmed_start;
use crate::text::words;
use crate::text::words_of;
use crate::tracer::vm::canonical;
use crate::tracer::vm::merkle_root;
use crate::tracer::vm::merkle_tree;
use crate::tracer::vm::power_of_two;
use crate::tracer::vm::root_of;
use crate::tracer::vm::tree_of;
use crate::tracer::vm::word_views;
use crate::tracer::vm::MODULUS;

verus! {

/// What follows the `#` of a line that is a comment, trimmed.
pub open spec fn comment_body(line: Seq<char>) -> Option<Seq<char>> {
    let t = trimmed(line);
    if "#"@.is_prefix_of(t) {
        Some(trimmed(t.skip("#"@.len() as int)))
    } else {
        None
    }
}

/// What a comment line declares under `key`, trimmed.
pub open spec fn declared(line: Seq<char>, key: Seq<char>) -> Option<Seq<char>> {
    match comment_body(line) {
        Some(body) => if key.is_prefix_of(body) {
            Some(trimmed(body.skip(key.len() as int)))
        } else {
            None
        },
        None => None,
    }
}

/// The value of a literal: hexadecimal behind `0x` or `0X`, else decimal.
pub open spec fn literal(token: Seq<char>) -> Option<nat> {
    if "0x"@.is_prefix_of(token) {
        parsed(token.skip("0x"@.len() as int), 16, u64::MAX as nat)
    } else if "0X"@.is_prefix_of(token) {
        parsed(token.skip("0X"@.len() as int), 16, u64::MAX as nat)
    } else {
        parsed(token, 10, u64::MAX as nat)
    }
}

/// The values of the tokens that are literals, in order.
pub open spec fn literals(tokens: Seq<Seq<char>>) -> Seq<u64>
    decreases tokens.len(),
{
    if tokens.len() == 0 {
        seq![]
    } else {
        match literal(tokens.last()) {
            Some(v) => literals(tokens.drop_last()).push(v as u64),
            None => literals(tokens.drop_last()),
        }
    }
}

/// The values of the tokens that are literals once they are trimmed.
pub open spec fn trimmed_literals(tokens: Seq<Seq<char>>) -> Seq<u64> {
    literals(tokens.map_values(|t: Seq<char>| trimmed(t)))
}

/// The comma-separated values that the lines declare under `key`, in order.
pub open spec fn listed_values(lines: Seq<Seq<char>>, key: Seq<char>) -> Seq<u64>
    decreases lines.len(),
{
    if lines.len() == 0 {
        seq![]
    } else {
        let earlier = listed_values(lines.drop_last(), key);
        match declared(lines.last(), key) {
            Some(v) => earlier + trimmed_literals(split_on(v, ',')),
            None => earlier,
        }
    }
}

/// The initial advice stack that a source declares.
pub open spec fn declared_advice_stack(source: Seq<char>) -> Seq<u64> {
    listed_values(lines_of(source), "advice_stack:"@)
}

/// The initial operand stack that a source declares.
pub open spec fn declared_operand_stack(source: Seq<char>) -> Seq<u64> {
    listed_values(lines_of(source), "operand_stack:"@)
}

/// The field elements that numbers stand for.
pub open spec fn felts(values: Seq<u64>) -> Seq<u64> {
    values.map_values(|v: u64| (v % MODULUS) as u64)
}

/// The advice map entry that a line declares: four key elements, `;`, the
/// elements of the value.
pub open spec fn map_entry(line: Seq<char>) -> Option<(Seq<u64>, Seq<u64>)> {
    match declared(line, "advice_map:"@) {
        Some(v) => {
            let n = cut(v, ';');
            let key = literals(words_of(v.take(n as int)));
            if n < v.len() && key.len() == 4 {
                Some((felts(key), felts(literals(words_of(v.skip(n as int + 1))))))
            } else {
                None
            }
        },
        None => None,
    }
}

/// The advice map entries that the lines declare, in order.
pub open spec fn map_entries(lines: Seq<Seq<char>>) -> Seq<(Seq<u64>, Seq<u64>)>
    decreases lines.len(),
{
    if lines.len() == 0 {
        seq![]
    } else {
        match map_entry(lines.last()) {
            Some(e) => map_entries(lines.drop_last()).push(e),
            None => map_entries(lines.drop_last()),
        }
    }
}

/// The advice map entries that a source declares.
pub open spec fn declared_advice_map(source: Seq<char>) -> Seq<(Seq<u64>, Seq<u64>)> {
    map_entries(lines_of(source))
}

/// What the entries of an advice map hold.
pub open spec fn entry_views(v: Seq<([u64; 4], Vec<u64>)>) -> Seq<(Seq<u64>, Seq<u64>)> {
    v.map_values(|e: ([u64; 4], Vec<u64>)| (e.0@, e.1@))
}

/// The leaves among the pieces: those that hold four literals.
pub open spec fn leaves_in(parts: Seq<Seq<char>>) -> Seq<Seq<u64>>
    decreases parts.len(),
{
    if parts.len() == 0 {
        seq![]
    } else {
        let elements = literals(words_of(parts.last()));
        if elements.len() == 4 {
            leaves_in(parts.drop_last()).push(felts(elements))
        } else {
            leaves_in(parts.drop_last())
        }
    }
}

/// A Merkle tree can be built over `n` leaves.
pub open spec fn tree_size(n: nat) -> bool {
    n >= 2 && power_of_two(n)
}

/// The leaves of the Merkle tree that a line declares, separated by `;`.
pub open spec fn tree_leaves(line: Seq<char>) -> Option<Seq<Seq<u64>>> {
    match declared(line, "merkle_tree:"@) {
        Some(v) => {
            let leaves = leaves_in(split_on(v, ';'));
            if tree_size(leaves.len()) {
                Some(leaves)
            } else {
                None
            }
        },
        None => None,
    }
}

/// The Merkle trees that the lines declare, in order, each by its leaves.
pub open spec fn trees_in(lines: Seq<Seq<char>>) -> Seq<Seq<Seq<u64>>>
    decreases lines.len(),
{
    if lines.len() == 0 {
        seq![]
    } else {
        match tree_leaves(lines.last()) {
            Some(t) => trees_in(lines.drop_last()).push(t),
            None => trees_in(lines.drop_last()),
        }
    }
}

/// The Merkle trees that a source declares.
pub open spec fn declared_trees(source: Seq<char>) -> Seq<Seq<Seq<u64>>> {
    trees_in(lines_of(source))
}

/// What a list of trees holds.
pub open spec fn tree_views(v: Seq<Vec<[u64; 4]>>) -> Seq<Seq<Seq<u64>>> {
    v.map_values(|t: Vec<[u64; 4]>| word_views(t@))
}

fn body_of_comment<'a>(line: &'a [char]) -> (r: Option<&'a [char]>)
    ensures
        match r {
            Some(body) => comment_body(line@) == Some(body@),
            None => comment_body(line@) is None,
        },
{
    match strip_prefix(trim(line), "#") {
        Some(rest) => Some(trim(rest)),
        None => None,
    }
}

fn declaration<'a>(line: &'a [char], key: &str) -> (r: Option<&'a [char]>)
    ensures
        match r {
            Some(v) => declared(line@, key@) == Some(v@),
            None => declared(line@, key@) is None,
        },
{
    match body_of_comment(line) {
        Some(body) => match strip_prefix(body, key) {
            Some(rest) => Some(trim(rest)),
            None => None,
        },
        None => None,
    }
}

fn parse_literal(token: &[char]) -> (r: Option<u64>)
    ensures
        match r {
            Some(v) => literal(token@) == Some(v as nat),
            None => literal(token@) is None,
        },
{
    if let Some(digits) = strip_prefix(token, "0x") {
        return parse(digits, 16, u64::MAX);
    }
    if let Some(digits) = strip_prefix(token, "0X") {
        return parse(digits, 16, u64::MAX);
    }
    parse(token, 10, u64::MAX)
}

fn parse_literals(tokens: &Vec<&[char]>) -> (r: Vec<u64>)
    ensures
        r@ == literals(pieces(tokens@)),
{
    let mut out: Vec<u64> = Vec::new();
    let mut i: usize = 0;
    let ghost all = pieces(tokens@);
    assert(all.take(0) =~= seq![]);
    while i < tokens.len()
        invariant
            i <= tokens.len(),
            all == pieces(tokens@),
            out@ == literals(all.take(i as int)),
        decreases tokens.len() - i,
    {
        assert(all.take(i + 1).drop_last() =~= all.take(i as int));
        assert(all.take(i + 1).last() == tokens@[i as int]@);
        if let Some(v) = parse_literal(tokens[i]) {
            out.push(v);
        }
        i += 1;
    }
    assert(all.take(i as int) =~= all);
    out
}

fn trim_all<'a>(tokens: &Vec<&'a [char]>) -> (r: Vec<&'a [char]>)
    ensures
        pieces(r@) == pieces(tokens@).map_values(|t: Seq<char>| trimmed(t)),
{
    let mut out: Vec<&'a [char]> = Vec::new();
    let mut i: usize = 0;
    while i < tokens.len()
        invariant
            i <= tokens.len(),
            out@.len() == i,
            forall|k: int| 0 <= k < i ==> #[trigger] out@[k]@ == trimmed(tokens@[k]@),
        decreases tokens.len() - i,
    {
        out.push(trim(tokens[i]));
        i += 1;
    }
    assert(pieces(out@) =~= pieces(tokens@).map_values(|t: Seq<char>| trimmed(t)));
    out
}

fn append(out: &mut Vec<u64>, more: &Vec<u64>)
    ensures
        final(out)@ == old(out)@ + more@,
{
    let mut i: usize = 0;
    let ghost start = out@;
    assert(out@ =~= start + more@.take(0));
    while i < more.len()
        invariant
            i <= more.len(),
            out@ == start + more@.take(i as int),
        decreases more.len() - i,
    {
        out.push(more[i]);
        i += 1;
        assert(start + more@.take(i as int) =~= (start + more@.take(i - 1)).push(more@[i - 1]));
    }
    assert(more@.take(i as int) =~= more@);
}

fn list_values(source: &str, key: &str) -> (r: Vec<u64>)
    ensures
        r@ == listed_values(lines_of(source@), key@),
{
    let text = chars_of(source);
    let rows = lines(text.as_slice());
    let mut out: Vec<u64> = Vec::new();
    let mut i: usize = 0;
    let ghost all = pieces(rows@);
    assert(all.take(0) =~= seq![]);
    while i < rows.len()
        invariant
            i <= rows.len(),
            all == pieces(rows@),
            out@ == listed_values(all.take(i as int), key@),
        decreases rows.len() - i,
    {
        assert(all.take(i + 1).drop_last() =~= all.take(i as int));
        assert(all.take(i + 1).last() == rows@[i as int]@);
        if let Some(v) = declaration(rows[i], key) {
            let values = parse_literals(&trim_all(&split(v, ',')));
            append(&mut out, &values);
        }
        i += 1;
    }
    assert(all.take(i as int) =~= all);
    out
}

/// The values of the `# advice_stack:` lines, in source order: the first one
/// is the first to be popped. Values are separated by commas; what is no
/// literal is passed over.
pub fn parse_advice_stack(source: &str) -> (r: Vec<u64>)
    ensures
        r@ == declared_advice_stack(source@),
{
    list_values(source, "advice_stack:")
}

/// The values of the `# operand_stack:` lines, in source order: the last one
/// comes to lie on top of the stack.
pub fn parse_operand_stack(source: &str) -> (r: Vec<u64>)
    ensures
        r@ == declared_operand_stack(source@),
{
    list_values(source, "operand_stack:")
}

fn canonical_all(values: &Vec<u64>) -> (r: Vec<u64>)
    ensures
        r@ == felts(values@),
{
    let mut out: Vec<u64> = Vec::new();
    let mut i: usize = 0;
    while i < values.len()
        invariant
            i <= values.len(),
            out@.len() == i,
            forall|k: int| 0 <= k < i ==> #[trigger] out@[k] == values@[k] % MODULUS,
        decreases values.len() - i,
    {
        out.push(canonical(values[i]));
        i += 1;
    }
    assert(out@ =~= felts(values@));
    out
}

fn word_of(values: &Vec<u64>) -> (r: [u64; 4])
    requires
        values@.len() == 4,
    ensures
        r@ == felts(values@),
{
    let r: [u64; 4] = [
        canonical(values[0]),
        canonical(values[1]),
        canonical(values[2]),
        canonical(values[3]),
    ];
    assert(r@ =~= felts(values@));
    r
}

fn parse_map_entry(line: &[char]) -> (r: Option<([u64; 4], Vec<u64>)>)
    ensures
        match r {
            Some(e) => map_entry(line@) == Some((e.0@, e.1@)),
            None => map_entry(line@) is None,
        },
{
    match declaration(line, "advice_map:") {
        None => None,
        Some(v) => {
            assert(v@.skip(0) =~= v@);
            let n: usize = find_from(v, ';', 0);
            if n == v.len() {
                return None;
            }
            assert(v@.take(n as int) =~= v@.subrange(0, n as int));
            assert(v@.skip(n + 1) =~= v@.subrange(n + 1, v@.len() as int));
            let key = parse_literals(&words(slice_subrange(v, 0, n)));
            if key.len() != 4 {
                return None;
            }
            let values = parse_literals(&words(slice_subrange(v, n + 1, v.len())));
            Some((word_of(&key), canonical_all(&values)))
        },
    }
}

/// The entries of the `# advice_map:` lines, in source order: a key of four
/// elements and a value of any length, as canonical field elements. A line
/// without a `;` or with another number of key elements declares nothing.
pub fn parse_advice_map(source: &str) -> (r: Vec<([u64; 4], Vec<u64>)>)
    ensures
        entry_views(r@) == declared_advice_map(source@),
{
    let text = chars_of(source);
    let rows = lines(text.as_slice());
    let mut out: Vec<([u64; 4], Vec<u64>)> = Vec::new();
    let mut i: usize = 0;
    let ghost all = pieces(rows@);
    assert(all.take(0) =~= seq![]);
    assert(entry_views(out@) =~= seq![]);
    while i < rows.len()
        invariant
            i <= rows.len(),
            all == pieces(rows@),
            entry_views(out@) == map_entries(all.take(i as int)),
        decreases rows.len() - i,
    {
        assert(all.take(i + 1).drop_last() =~= all.take(i as int));
        assert(all.take(i + 1).last() == rows@[i as int]@);
        if let Some(e) = parse_map_entry(rows[i]) {
            let ghost before = out@;
            out.push(e);
            assert(entry_views(out@) =~= entry_views(before).push((e.0@, e.1@)));
        }
        i += 1;
    }
    assert(all.take(i as int) =~= all);
    out
}

fn is_tree_size(n: usize) -> (r: bool)
    ensures
        r == tree_size(n as nat),
{
    if n < 2 {
        return false;
    }
    let mut m: usize = n;
    while m > 1 && m % 2 == 0
        invariant
            m >= 1,
            power_of_two(n as nat) == power_of_two(m as nat),
        decreases m,
    {
        m = m / 2;
    }
    m == 1
}

fn parse_leaves(parts: &Vec<&[char]>) -> (r: Vec<[u64; 4]>)
    ensures
        word_views(r@) == leaves_in(pieces(parts@)),
{
    let mut out: Vec<[u64; 4]> = Vec::new();
    let mut i: usize = 0;
    let ghost all = pieces(parts@);
    assert(all.take(0) =~= seq![]);
    assert(word_views(out@) =~= seq![]);
    while i < parts.len()
        invariant
            i <= parts.len(),
            all == pieces(parts@),
            word_views(out@) == leaves_in(all.take(i as int)),
        decreases parts.len() - i,
    {
        assert(all.take(i + 1).drop_last() =~= all.take(i as int));
        assert(all.take(i + 1).last() == parts@[i as int]@);
        let elements = parse_literals(&words(parts[i]));
        if elements.len() == 4 {
            let ghost before = out@;
            let word = word_of(&elements);
            out.push(word);
            assert(word_views(out@) =~= word_views(before).push(word@));
        }
        i += 1;
    }
    assert(all.take(i as int) =~= all);
    out
}

/// The leaves of each `# merkle_tree:` line, in source order, as canonical
/// field elements. Leaves are separated by `;` and hold four elements; a line
/// whose number of leaves is no power of two, or below two, declares nothing.
pub fn parse_merkle_trees(source: &str) -> (r: Vec<Vec<[u64; 4]>>)
    ensures
        tree_views(r@) == declared_trees(source@),
{
    let text = chars_of(source);
    let rows = lines(text.as_slice());
    let mut out: Vec<Vec<[u64; 4]>> = Vec::new();
    let mut i: usize = 0;
    let ghost all = pieces(rows@);
    assert(all.take(0) =~= seq![]);
    assert(tree_views(out@) =~= seq![]);
    while i < rows.len()
        invariant
            i <= rows.len(),
            all == pieces(rows@),
            tree_views(out@) == trees_in(all.take(i as int)),
        decreases rows.len() - i,
    {
        assert(all.take(i + 1).drop_last() =~= all.take(i as int));
        assert(all.take(i + 1).last() == rows@[i as int]@);
        if let Some(v) = declaration(rows[i], "merkle_tree:") {
            let leaves = parse_leaves(&split(v, ';'));
            assert(word_views(leaves@).len() == leaves@.len());
            if is_tree_size(leaves.len()) {
                let ghost before = out@;
                let ghost tree = word_views(leaves@);
                out.push(leaves);
                assert(tree_views(out@) =~= tree_views(before).push(tree));
            }
        }
        i += 1;
    }
    assert(all.take(i as int) =~= all);
    out
}

/// The root of the Merkle tree over `leaves`, as four canonical elements. It
/// exists exactly where the number of leaves is a power of two of at least two.
pub fn merkle_tree_root_felts(leaves: &Vec<[u64; 4]>) -> (r: Result<[u64; 4], String>)
    ensures
        r is Ok == tree_size(leaves@.len()),
        match (r, tree_of(word_views(leaves@))) {
            (Ok(root), Ok(tree)) => root@ == root_of(tree),
            (Err(e), Err(text)) => e@ == "merkle_tree_root_felts: invalid leaves: "@ + text,
            _ => false,
        },
{
    match merkle_tree(leaves) {
        Ok(tree) => Ok(merkle_root(&tree)),
        Err(text) => {
            let mut message = "merkle_tree_root_felts: invalid leaves: ".to_owned();
            message.append(text.as_str());
            Err(message)
        },
    }
}

/// What a continuation line of a kernel block holds: what follows `# >`, less
/// one space.
pub open spec fn continuation(line: Seq<char>) -> Option<Seq<char>> {
    let t = trimmed(line);
    if "#"@.is_prefix_of(t) {
        let body = trimmed_start(t.skip("#"@.len() as int));
        if ">"@.is_prefix_of(body) {
            let rest = body.skip(">"@.len() as int);
            if " "@.is_prefix_of(rest) {
                Some(rest.skip(" "@.len() as int))
            } else {
                Some(rest)
            }
        } else {
            None
        }
    } else {
        None
    }
}

/// How many lines at the front continue a block.
pub open spec fn block_len(lines: Seq<Seq<char>>) -> nat
    decreases lines.len(),
{
    if lines.len() == 0 || continuation(lines[0]) is None {
        0
    } else {
        1 + block_len(lines.drop_first())
    }
}

/// The contents of continuation lines, one below the other.
pub open spec fn block_text(lines: Seq<Seq<char>>) -> Seq<char>
    decreases lines.len(),
{
    if lines.len() == 0 {
        seq![]
    } else {
        let content = match continuation(lines.last()) {
            Some(c) => c,
            None => seq![],
        };
        if lines.len() == 1 {
            content
        } else {
            block_text(lines.drop_last()).push('\n') + content
        }
    }
}

/// The text of the first kernel block: that of the first `kernel_module:` line
/// with a continuation line behind it.
pub open spec fn kernel_in(lines: Seq<Seq<char>>) -> Option<Seq<char>>
    decreases lines.len(),
{
    if lines.len() == 0 {
        None
    } else {
        let rest = lines.drop_first();
        let n = block_len(rest);
        if comment_body(lines[0]) == Some("kernel_module:"@) && n > 0 {
            Some(block_text(rest.take(n as int)))
        } else {
            kernel_in(rest)
        }
    }
}

/// The source of the kernel that a source declares.
pub open spec fn declared_kernel(source: Seq<char>) -> Option<Seq<char>> {
    kernel_in(lines_of(source))
}

fn continued<'a>(line: &'a [char]) -> (r: Option<&'a [char]>)
    ensures
        match r {
            Some(content) => continuation(line@) == Some(content@),
            None => continuation(line@) is None,
        },
{
    match strip_prefix(trim(line), "#") {
        None => None,
        Some(body) => match strip_prefix(trim_start(body), ">") {
            None => None,
            Some(rest) => match strip_prefix(rest, " ") {
                Some(content) => Some(content),
                None => Some(rest),
            },
        },
    }
}

fn push_all(text: &mut Vec<char>, line: &[char])
    ensures
        final(text)@ == old(text)@ + line@,
{
    let ghost start = text@;
    let mut i: usize = 0;
    assert(text@ =~= start + line@.take(0));
    while i < line.len()
        invariant
            i <= line.len(),
            text@ == start + line@.take(i as int),
        decreases line.len() - i,
    {
        text.push(line[i]);
        i += 1;
        assert(start + line@.take(i as int) =~= (start + line@.take(i - 1)).push(line@[i - 1]));
    }
    assert(line@.take(i as int) =~= line@);
}

/// The number of continuation lines from `start` on, and what they hold.
fn read_block(rows: &Vec<&[char]>, start: usize) -> (r: (usize, Vec<char>))
    requires
        start <= rows@.len(),
    ensures
        r.0 == block_len(pieces(rows@).skip(start as int)),
        r.0 <= rows@.len() - start,
        r.1@ == block_text(pieces(rows@).skip(start as int).take(r.0 as int)),
{
    let ghost all = pieces(rows@);
    let ghost rest = all.skip(start as int);
    let mut text: Vec<char> = Vec::new();
    let mut j: usize = start;
    assert(rest.take(0) =~= seq![]);
    while j < rows.len() && continued(rows[j]).is_some()
        invariant
            start <= j <= rows.len(),
            all == pieces(rows@),
            rest == all.skip(start as int),
            block_len(rest) == (j - start) + block_len(all.skip(j as int)),
            text@ == block_text(rest.take(j - start)),
        decreases rows.len() - j,
    {
        assert(all.skip(j as int).drop_first() =~= all.skip(j + 1));
        assert(rest.take(j + 1 - start).drop_last() =~= rest.take(j - start));
        if let Some(content) = continued(rows[j]) {
            if j > start {
                text.push('\n');
            }
            push_all(&mut text, content);
            assert(text@ =~= block_text(rest.take(j + 1 - start)));
        }
        j += 1;
    }
    assert(block_len(all.skip(j as int)) == 0);
    (j - start, text)
}

/// The source of the kernel that a `# kernel_module:` line opens: the contents
/// of the `# > ` lines that follow it, one below the other. `None` where no
/// such line is followed by one.
pub fn parse_kernel_module(source: &str) -> (r: Option<String>)
    ensures
        match r {
            Some(text) => declared_kernel(source@) == Some(text@),
            None => declared_kernel(source@) is None,
        },
{
    let chars = chars_of(source);
    let rows = lines(chars.as_slice());
    let ghost all = pieces(rows@);
    let mut i: usize = 0;
    assert(all.skip(0) =~= all);
    while i < rows.len()
        invariant
            i <= rows.len(),
            all == pieces(rows@),
            all == lines_of(source@),
            kernel_in(all) == kernel_in(all.skip(i as int)),
        decreases rows.len() - i,
    {
        let ghost here = all.skip(i as int);
        assert(here.drop_first() =~= all.skip(i + 1));
        assert(here[0] == rows@[i as int]@);
        let opens = match body_of_comment(rows[i]) {
            Some(body) => is_text(body, "kernel_module:"),
            None => false,
        };
        if opens {
            let (n, text) = read_block(&rows, i + 1);
            if n > 0 {
                return Some(string_of(text.as_slice()));
            }
        }
        i += 1;
    }
    assert(all.skip(i as int) =~= seq![]);
    None
}

proof fn lemma_listed_joined(a: Seq<Seq<char>>, b: Seq<Seq<char>>, key: Seq<char>)
    ensures
        listed_values(a + b, key) == listed_values(a, key) + listed_values(b, key),
    decreases b.len(),
{
    if b.len() == 0 {
        assert(a + b =~= a);
        assert(listed_values(a, key) + listed_values(b, key) =~= listed_values(a, key));
    } else {
        assert((a + b).drop_last() =~= a + b.drop_last());
        lemma_listed_joined(a, b.drop_last(), key);
        assert(listed_values(a + b, key) =~= listed_values(a, key) + listed_values(b, key));
    }
}

/// A line feed at the end adds no values.
proof fn lemma_listed_line_feed(source: Seq<char>, key: Seq<char>)
    ensures
        listed_values(lines_of(source.push('\n')), key) == listed_values(lines_of(source), key),
{
    lemma_lines_line_feed(source);
    let rows = lines_of(source);
    if lines_of(source.push('\n')) != rows {
        let empty = Seq::<char>::empty();
        assert(rows.push(empty).drop_last() =~= rows);
        assert(comment_body(empty) is None) by {
            reveal_strlit("#");
            assert(trimmed(empty).len() == 0);
        }
        assert(declared(empty, key) is None);
    }
}

proof fn lemma_listed_sources(first: Seq<char>, second: Seq<char>, key: Seq<char>)
    ensures
        listed_values(lines_of(first.push('\n') + second), key) == listed_values(
            lines_of(first),
            key,
        ) + listed_values(lines_of(second), key),
{
    lemma_lines_joined(first.push('\n'), second);
    lemma_listed_joined(lines_of(first.push('\n')), lines_of(second), key);
    lemma_listed_line_feed(first, key);
}

/// Values may be spread over several lines: those of a source are those of its
/// first part followed by those of the part behind a line feed.
pub proof fn lemma_stacks_joined(first: Seq<char>, second: Seq<char>)
    ensures
        declared_advice_stack(first.push('\n') + second) == declared_advice_stack(first)
            + declared_advice_stack(second),
        declared_operand_stack(first.push('\n') + second) == declared_operand_stack(first)
            + declared_operand_stack(second),
{
    lemma_listed_sources(first, second, "advice_stack:"@);
    lemma_listed_sources(first, second, "operand_stack:"@);
}

/// What `# `, a key, a space and any text declare.
pub(crate) open spec fn declaration_line(key: Seq<char>, v: Seq<char>) -> Seq<char> {
    "# "@ + key + " "@ + v
}

/// A line that declares values under a key holds them under that key alone.
pub(crate) proof fn lemma_declaration_line(key: Seq<char>, other: Seq<char>, v: Seq<char>)
    requires
        key.len() > 0,
        !is_space(key[0]),
        !is_space(key.last()),
        other.len() > 0,
        other[0] != key[0],
    ensures
        declared(declaration_line(key, v), key) == Some(trimmed(trimmed_end(" "@ + v))),
        declared(declaration_line(key, v), other) is None,
{
    reveal_strlit("#");
    reveal_strlit("# ");
    reveal_strlit(" ");
    let line = declaration_line(key, v);
    let tail = " "@ + v;
    let w = trimmed_end(tail);
    assert(line =~= ("# "@ + key) + tail);
    lemma_trimmed_end_joined("# "@ + key, tail);
    let t = trimmed(line);
    assert(t =~= ("# "@ + key) + w);
    assert("#"@ =~= t.subrange(0, 1));
    let inner = t.skip(1);
    assert(inner =~= seq![' '] + (key + w));
    assert(inner.drop_first() =~= key + w);
    reveal_with_fuel(trimmed_start, 2);
    assert(trimmed_start(inner) == key + w);
    lemma_trimmed_end_joined(key, w);
    lemma_trimmed_end_twice(tail);
    assert(trimmed(inner) == key + w);
    assert(comment_body(line) == Some(key + w));
    assert(key =~= (key + w).subrange(0, key.len() as int));
    assert((key + w).skip(key.len() as int) =~= w);
    if other.is_prefix_of(key + w) {
        assert(other[0] == (key + w).subrange(0, other.len() as int)[0]);
    }
}

/// The two stack declarations are read alike, and neither is read as the other.
pub proof fn lemma_stacks_read_alike(v: Seq<char>)
    requires
        !v.contains('\n'),
    ensures
        declared_operand_stack("# operand_stack: "@ + v) == declared_advice_stack(
            "# advice_stack: "@ + v,
        ),
        declared_operand_stack("# advice_stack: "@ + v) == Seq::<u64>::empty(),
        declared_advice_stack("# operand_stack: "@ + v) == Seq::<u64>::empty(),
{
    let operand = "operand_stack:"@;
    let advice = "advice_stack:"@;
    reveal_strlit("operand_stack:");
    reveal_strlit("advice_stack:");
    reveal_strlit("# operand_stack: ");
    reveal_strlit("# advice_stack: ");
    reveal_strlit("# ");
    reveal_strlit(" ");
    let a = "# operand_stack: "@ + v;
    let b = "# advice_stack: "@ + v;
    assert(a =~= declaration_line(operand, v));
    assert(b =~= declaration_line(advice, v));
    lemma_declaration_line(operand, advice, v);
    lemma_declaration_line(advice, operand, v);
    assert forall|i: int| 0 <= i < a.len() implies a[i] != '\n' by {
        if i >= "# operand_stack: "@.len() {
            assert(v.contains(v[i - "# operand_stack: "@.len()]));
        }
    }
    assert forall|i: int| 0 <= i < b.len() implies b[i] != '\n' by {
        if i >= "# advice_stack: "@.len() {
            assert(v.contains(v[i - "# advice_stack: "@.len()]));
        }
    }
    lemma_one_line(a);
    lemma_one_line(b);
    reveal_with_fuel(listed_values, 2);
    assert(seq![a].drop_last() =~= seq![]);
    assert(seq![b].drop_last() =~= seq![]);
    assert(listed_values(seq![a], operand) =~= listed_values(seq![b], advice));
    assert(listed_values(seq![b], operand) =~= Seq::<u64>::empty());
    assert(listed_values(seq![a], advice) =~= Seq::<u64>::empty());
}

/// Four canonical field elements.
pub open spec fn is_word(w: Seq<u64>) -> bool {
    w.len() == 4 && forall|i: int| 0 <= i < w.len() ==> #[trigger] w[i] < MODULUS
}

proof fn lemma_felts(values: Seq<u64>)
    ensures
        values.len() == 4 ==> is_word(felts(values)),
{
    assert forall|i: int| 0 <= i < values.len() implies #[trigger] felts(values)[i] < MODULUS by {
        assert(values[i] % MODULUS < MODULUS);
    }
}

proof fn lemma_leaves_in(parts: Seq<Seq<char>>)
    ensures
        forall|i: int| 0 <= i < leaves_in(parts).len() ==> is_word(#[trigger] leaves_in(parts)[i]),
    decreases parts.len(),
{
    if parts.len() > 0 {
        lemma_leaves_in(parts.drop_last());
        lemma_felts(literals(words_of(parts.last())));
        let earlier = leaves_in(parts.drop_last());
        assert forall|i: int| 0 <= i < leaves_in(parts).len() implies is_word(
            #[trigger] leaves_in(parts)[i],
        ) by {
            if i < earlier.len() {
                assert(is_word(earlier[i]));
            }
        }
    }
}

proof fn lemma_trees_in(lines: Seq<Seq<char>>)
    ensures
        forall|i: int|
            0 <= i < trees_in(lines).len() ==> tree_size((#[trigger] trees_in(lines)[i]).len()),
        forall|i: int, j: int|
            0 <= i < trees_in(lines).len() && 0 <= j < trees_in(lines)[i].len() ==> is_word(
                #[trigger] trees_in(lines)[i][j],
            ),
    decreases lines.len(),
{
    if lines.len() > 0 {
        lemma_trees_in(lines.drop_last());
        if let Some(v) = declared(lines.last(), "merkle_tree:"@) {
            lemma_leaves_in(split_on(v, ';'));
        }
        let earlier = trees_in(lines.drop_last());
        assert forall|i: int, j: int|
            0 <= i < trees_in(lines).len() && 0 <= j < trees_in(lines)[i].len() implies is_word(
            #[trigger] trees_in(lines)[i][j],
        ) by {
            if i < earlier.len() {
                assert(trees_in(lines)[i] == earlier[i]);
                assert(is_word(earlier[i][j]));
            }
        }
    }
}

/// Every declared tree can be built: its number of leaves is a power of two of
/// at least two, and each leaf is four field elements.
pub proof fn lemma_declared_trees(source: Seq<char>)
    ensures
        forall|i: int|
            0 <= i < declared_trees(source).len() ==> tree_size(
                (#[trigger] declared_trees(source)[i]).len(),
            ),
        forall|i: int, j: int|
            0 <= i < declared_trees(source).len() && 0 <= j < declared_trees(source)[i].len()
                ==> is_word(#[trigger] declared_trees(source)[i][j]),
{
    lemma_trees_in(lines_of(source));
}

proof fn lemma_map_entries(lines: Seq<Seq<char>>)
    ensures
        forall|i: int|
            0 <= i < map_entries(lines).len() ==> is_word((#[trigger] map_entries(lines)[i]).0),
    decreases lines.len(),
{
    if lines.len() > 0 {
        lemma_map_entries(lines.drop_last());
        if let Some(v) = declared(lines.last(), "advice_map:"@) {
            lemma_felts(literals(words_of(v.take(cut(v, ';') as int))));
        }
        let earlier = map_entries(lines.drop_last());
        assert forall|i: int| 0 <= i < map_entries(lines).len() implies is_word(
            (#[trigger] map_entries(lines)[i]).0,
        ) by {
            if i < earlier.len() {
                assert(is_word(earlier[i].0));
            }
        }
    }
}

/// Every key of the declared advice map is four field elements.
pub proof fn lemma_declared_keys(source: Seq<char>)
    ensures
        forall|i: int|
            0 <= i < declared_advice_map(source).len() ==> is_word(
                (#[trigger] declared_advice_map(source)[i]).0,
            ),
{
    lemma_map_entries(lines_of(source));
}

} // verus!
