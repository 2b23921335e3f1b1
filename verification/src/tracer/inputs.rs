//! Inputs that are written into a source are read back from it.

use vstd::arithmetic::power2::lemma_pow2_pos;
use vstd::arithmetic::power2::lemma_pow2_unfold;
use vstd::arithmetic::power2::pow2;
use vstd::prelude::*;

use crate::number::decimal;
use crate::number::lemma_numeral_digits;
use crate::number::lemma_numeral_reads_back;
use crate::number::numeral;
use crate::text::cut;
use crate::text::is_space;
use crate::text::joined;
use crate::text::lemma_cut_at;
use crate::text::lemma_lines_joined;
use crate::text::lemma_lines_line_feed;
use crate::text::lemma_one_line;
use crate::text::lemma_one_piece;
use crate::text::lemma_split_joined;
use crate::text::lines_of;
use crate::text::split_on;
use crate::text::trimmed;
use crate::text::trimmed_end;
use crate::text::words_of;
use crate::text_laws::blank;
use crate::text_laws::lemma_trims;
use crate::text_laws::lemma_words_joined;
use crate::text_laws::lemma_words_spaced;
use crate::text_laws::solid;
use crate::tracer::declarations::block_len;
use crate::tracer::declarations::block_text;
use crate::tracer::declarations::comment_body;
use crate::tracer::declarations::continuation;
use crate::tracer::declarations::declaration_line;
use crate::tracer::declarations::declared;
use crate::tracer::declarations::declared_advice_map;
use crate::tracer::declarations::declared_advice_stack;
use crate::tracer::declarations::declared_operand_stack;
use crate::tracer::declarations::declared_trees;
use crate::tracer::declarations::felts;
use crate::tracer::declarations::kernel_in;
use crate::tracer::declarations::leaves_in;
use crate::tracer::declarations::lemma_declaration_line;
use crate::tracer::declarations::listed_values;
use crate::tracer::declarations::literal;
use crate::tracer::declarations::literals;
use crate::tracer::declarations::map_entries;
use crate::tracer::declarations::map_entry;
use crate::tracer::declarations::tree_leaves;
use crate::tracer::declarations::trees_in;
use crate::tracer::declarations::trimmed_literals;
use crate::tracer::vm::power_of_two;

verus! {

/// The numerals of the values.
pub open spec fn numerals(values: Seq<u64>) -> Seq<Seq<char>> {
    Seq::new(values.len(), |i: int| decimal(values[i] as int))
}

/// The values as a list: a comma between each two, and a space behind it.
pub open spec fn listed(values: Seq<u64>) -> Seq<char> {
    joined(
        Seq::new(
            values.len(),
            |i: int|
                if i == 0 {
                    decimal(values[0] as int)
                } else {
                    seq![' '] + decimal(values[i] as int)
                },
        ),
        ',',
    )
}

/// The values with a space between each two.
pub open spec fn spaced(values: Seq<u64>) -> Seq<char> {
    joined(numerals(values), ' ')
}

/// The values as elements of the VM's field.
pub open spec fn elements(values: Seq<u64>) -> Seq<u64> {
    Seq::new(values.len(), |i: int| (values[i] % 0xffff_ffff_0000_0001) as u64)
}

/// A literal has the value that it writes, in decimal digits, or in hexadecimal
/// ones behind `0x` or `0X`.
pub proof fn lemma_literal(n: nat)
    requires
        n <= u64::MAX,
    ensures
        literal(decimal(n as int)) == Some(n),
        literal("0x"@ + numeral(n, 16)) == Some(n),
        literal("0X"@ + numeral(n, 16)) == Some(n),
{
    reveal_strlit("0x");
    reveal_strlit("0X");
    lemma_numeral_reads_back(n, 10, u64::MAX as nat);
    lemma_numeral_reads_back(n, 16, u64::MAX as nat);
    let d = decimal(n as int);
    if "0x"@.is_prefix_of(d) {
        assert(d.subrange(0, 2)[1] == 'x');
        lemma_numeral_digits(n, 10, 1);
    }
    if "0X"@.is_prefix_of(d) {
        assert(d.subrange(0, 2)[1] == 'X');
        lemma_numeral_digits(n, 10, 1);
    }
    let a = "0x"@ + numeral(n, 16);
    let b = "0X"@ + numeral(n, 16);
    assert("0x"@.is_prefix_of(a));
    assert("0X"@.is_prefix_of(b));
    assert(!"0x"@.is_prefix_of(b)) by {
        assert(b.subrange(0, 2)[1] == 'X');
    }
    assert(a.skip(2) =~= numeral(n, 16));
    assert(b.skip(2) =~= numeral(n, 16));
}

/// The literals among tokens are read in order, and what is no literal is left
/// out.
pub proof fn lemma_literals(a: Seq<Seq<char>>, t: Seq<char>)
    ensures
        literals(Seq::empty()) == Seq::<u64>::empty(),
        literal(t) is None ==> literals(a.push(t)) == literals(a),
        literal(t) is Some ==> literals(a.push(t)).len() == literals(a).len() + 1 && literals(
            a.push(t),
        ).last() == literal(t)->0 && literals(a.push(t)).drop_last() == literals(a),
{
    assert(a.push(t).drop_last() =~= a);
    if literal(t) is Some {
        assert(literal(t)->0 <= u64::MAX);
        assert(literals(a).push(literal(t)->0 as u64).drop_last() =~= literals(a));
    }
}

proof fn lemma_all_literals(tokens: Seq<Seq<char>>, values: Seq<u64>)
    requires
        tokens.len() == values.len(),
        forall|i: int| 0 <= i < tokens.len() ==> literal(#[trigger] tokens[i]) == Some(values[i] as nat),
    ensures
        literals(tokens) == values,
    decreases tokens.len(),
{
    if tokens.len() > 0 {
        let n = tokens.len() - 1;
        assert(literal(tokens[n]) == Some(values[n] as nat));
        assert forall|i: int| 0 <= i < n implies literal(#[trigger] tokens.drop_last()[i]) == Some(
            values.drop_last()[i] as nat,
        ) by {
            assert(literal(tokens[i]) == Some(values[i] as nat));
        }
        lemma_all_literals(tokens.drop_last(), values.drop_last());
        assert(values.drop_last().push(values[n]) =~= values);
    } else {
        assert(values =~= Seq::empty());
    }
}

/// The characters of a numeral are digits.
proof fn lemma_digits_only(n: nat)
    ensures
        decimal(n as int).len() > 0,
        solid(decimal(n as int)),
        forall|i: int|
            0 <= i < decimal(n as int).len() ==> '0' <= #[trigger] decimal(n as int)[i] <= '9',
{
    let d = decimal(n as int);
    lemma_numeral_reads_back(n, 10, n);
    assert forall|i: int| 0 <= i < d.len() implies '0' <= #[trigger] d[i] <= '9' by {
        lemma_numeral_digits(n, 10, i);
    }
    assert forall|i: int| 0 <= i < d.len() implies !is_space(#[trigger] d[i]) by {
        assert('0' <= d[i] <= '9');
    }
}

/// Joined pieces hold only what the pieces hold, and separators.
proof fn lemma_joined_chars(v: Seq<Seq<char>>, sep: char, c: char)
    requires
        c != sep,
        forall|i: int| 0 <= i < v.len() ==> !(#[trigger] v[i]).contains(c),
    ensures
        !joined(v, sep).contains(c),
    decreases v.len(),
{
    if v.len() == 1 {
        assert(!v[0].contains(c));
    } else if v.len() > 1 {
        let less = v.drop_last();
        assert forall|i: int| 0 <= i < less.len() implies !(#[trigger] less[i]).contains(c) by {
            assert(!v[i].contains(c));
        }
        lemma_joined_chars(less, sep, c);
        assert(!v[v.len() - 1].contains(c));
        let s = joined(v, sep);
        let a = joined(less, sep);
        assert forall|i: int| 0 <= i < s.len() implies s[i] != c by {
            if i < a.len() {
                assert(a.contains(a[i]));
            } else if i > a.len() {
                assert(v.last().contains(v.last()[i - a.len() - 1]));
            }
        }
    }
}

/// Joined pieces begin with the first one and end with the last.
proof fn lemma_joined_ends(v: Seq<Seq<char>>, sep: char)
    requires
        v.len() > 0,
        v[0].len() > 0,
        v.last().len() > 0,
    ensures
        joined(v, sep).len() > 0,
        joined(v, sep)[0] == v[0][0],
        joined(v, sep).last() == v.last().last(),
    decreases v.len(),
{
    if v.len() > 1 {
        lemma_joined_start(v.drop_last(), sep);
    }
}

proof fn lemma_joined_start(v: Seq<Seq<char>>, sep: char)
    requires
        v.len() > 0,
        v[0].len() > 0,
    ensures
        joined(v, sep).len() > 0,
        joined(v, sep)[0] == v[0][0],
    decreases v.len(),
{
    if v.len() > 1 {
        lemma_joined_start(v.drop_last(), sep);
    }
}

/// The text that a line declares, where it neither begins nor ends with white
/// space.
proof fn lemma_declares_text(key: Seq<char>, v: Seq<char>)
    requires
        key.len() > 0,
        !is_space(key[0]),
        !is_space(key.last()),
        v.len() > 0 ==> !is_space(v[0]) && !is_space(v.last()),
    ensures
        declared(declaration_line(key, v), key) == Some(v),
{
    let other: Seq<char> = if key[0] == 'a' {
        seq!['b']
    } else {
        seq!['a']
    };
    lemma_declaration_line(key, other, v);
    reveal_strlit(" ");
    let s = " "@ + v;
    assert(" "@ =~= seq![' ']);
    lemma_trims(seq![' '], v, Seq::empty());
    assert(seq![' '] + v + Seq::<char>::empty() =~= s);
    if v.len() > 0 {
        assert(s.last() == v.last());
        assert(trimmed_end(s) == s);
    } else {
        assert(s =~= seq![' ']);
        assert(s.drop_last() =~= Seq::empty());
        reveal_with_fuel(trimmed_end, 2);
        assert(trimmed_end(s) =~= Seq::empty());
        lemma_trims(Seq::empty(), Seq::empty(), Seq::empty());
        assert(Seq::<char>::empty() + Seq::<char>::empty() + Seq::<char>::empty()
            =~= Seq::<char>::empty());
        assert(v =~= Seq::empty());
    }
}

proof fn lemma_no_feed(key: Seq<char>, v: Seq<char>)
    requires
        !key.contains('\n'),
        !v.contains('\n'),
    ensures
        lines_of(declaration_line(key, v)) == seq![declaration_line(key, v)],
{
    reveal_strlit("# ");
    reveal_strlit(" ");
    let s = declaration_line(key, v);
    assert forall|i: int| 0 <= i < s.len() implies s[i] != '\n' by {
        if 2 <= i < 2 + key.len() {
            assert(key.contains(key[i - 2]));
        } else if i >= 3 + key.len() {
            assert(v.contains(v[i - 3 - key.len()]));
        }
    }
    lemma_one_line(s);
}

/// A list that is written behind a key is read back.
#[verifier::rlimit(50)]
proof fn lemma_listed(key: Seq<char>, values: Seq<u64>)
    requires
        key.len() > 0,
        !is_space(key[0]),
        !is_space(key.last()),
        !key.contains('\n'),
    ensures
        listed_values(lines_of(declaration_line(key, listed(values))), key) == values,
{
    let v = Seq::new(
        values.len(),
        |i: int|
            if i == 0 {
                decimal(values[0] as int)
            } else {
                seq![' '] + decimal(values[i] as int)
            },
    );
    let text = listed(values);
    let line = declaration_line(key, text);
    assert forall|i: int| 0 <= i < v.len() implies {
        &&& (#[trigger] v[i]).len() > 0
        &&& !v[i].contains(',')
        &&& !v[i].contains('\n')
        &&& trimmed(v[i]) == decimal(values[i] as int)
        &&& !is_space(v[i].last())
    } by {
        let d = decimal(values[i] as int);
        lemma_digits_only(values[i] as nat);
        assert('0' <= d[d.len() - 1] <= '9');
        assert('0' <= d[0] <= '9');
        let pad: Seq<char> = if i == 0 {
            Seq::empty()
        } else {
            seq![' ']
        };
        assert(v[i] =~= pad + d + Seq::<char>::empty());
        lemma_trims(pad, d, Seq::empty());
        assert forall|k: int| 0 <= k < v[i].len() implies v[i][k] != ',' && v[i][k] != '\n' by {
            if k >= pad.len() {
                assert('0' <= d[k - pad.len()] <= '9');
            }
        }
    }
    lemma_joined_chars(v, ',', '\n');
    lemma_no_feed(key, text);
    if values.len() > 0 {
        assert(v[0].len() > 0);
        assert(v[v.len() - 1].len() > 0);
        lemma_joined_ends(v, ',');
        lemma_digits_only(values[0] as nat);
        assert('0' <= decimal(values[0] as int)[0] <= '9');
        lemma_split_joined(v, ',');
    } else {
        assert(text =~= Seq::empty());
        lemma_one_piece(text, ',');
    }
    lemma_declares_text(key, text);
    let parts = split_on(text, ',');
    let tokens = parts.map_values(|t: Seq<char>| trimmed(t));
    assert(trimmed_literals(parts) == literals(tokens));
    if values.len() > 0 {
        assert forall|i: int| 0 <= i < tokens.len() implies literal(#[trigger] tokens[i]) == Some(
            values[i] as nat,
        ) by {
            assert(v[i].len() > 0);
            lemma_literal(values[i] as nat);
        }
        lemma_all_literals(tokens, values);
    } else {
        lemma_trims(Seq::empty(), Seq::empty(), Seq::empty());
        assert(Seq::<char>::empty() + Seq::<char>::empty() + Seq::<char>::empty()
            =~= Seq::<char>::empty());
        reveal_strlit("0x");
        reveal_strlit("0X");
        assert(tokens =~= seq![Seq::<char>::empty()]);
        lemma_literals(Seq::empty(), Seq::empty());
        assert(Seq::<Seq<char>>::empty().push(Seq::<char>::empty()) =~= tokens);
        assert(literal(Seq::<char>::empty()) is None);
        assert(values =~= Seq::empty());
    }
    assert(seq![line].drop_last() =~= Seq::empty());
    reveal_with_fuel(listed_values, 2);
    assert(listed_values(seq![line], key) =~= literals(tokens));
}

/// A stack that is written as a list behind its key is the stack that the source
/// declares, whatever its length and its values.
pub proof fn lemma_stack_written(values: Seq<u64>)
    ensures
        declared_operand_stack("# operand_stack: "@ + listed(values)) == values,
        declared_advice_stack("# advice_stack: "@ + listed(values)) == values,
{
    let operand = "operand_stack:"@;
    let advice = "advice_stack:"@;
    reveal_strlit("operand_stack:");
    reveal_strlit("advice_stack:");
    reveal_strlit("# operand_stack: ");
    reveal_strlit("# advice_stack: ");
    reveal_strlit("# ");
    reveal_strlit(" ");
    assert("# operand_stack: "@ + listed(values) =~= declaration_line(operand, listed(values)));
    assert("# advice_stack: "@ + listed(values) =~= declaration_line(advice, listed(values)));
    assert forall|i: int| 0 <= i < operand.len() implies operand[i] != '\n' by {}
    assert forall|i: int| 0 <= i < advice.len() implies advice[i] != '\n' by {}
    lemma_listed(operand, values);
    lemma_listed(advice, values);
}

/// Values with spaces between them are read back, whatever white space comes
/// behind them.
#[verifier::rlimit(50)]
proof fn lemma_spaced(values: Seq<u64>)
    ensures
        literals(words_of(spaced(values))) == values,
        literals(words_of(spaced(values).push(' '))) == values,
        literals(words_of(seq![' '] + spaced(values))) == values,
        !spaced(values).contains(';'),
        !spaced(values).contains('\n'),
        values.len() > 0 ==> spaced(values).len() > 0 && !is_space(spaced(values)[0]) && !is_space(
            spaced(values).last(),
        ),
        values.len() == 0 ==> spaced(values).len() == 0,
{
    let v = numerals(values);
    let text = spaced(values);
    assert forall|i: int| 0 <= i < v.len() implies {
        &&& (#[trigger] v[i]).len() > 0
        &&& solid(v[i])
        &&& !v[i].contains(';')
        &&& !v[i].contains('\n')
    } by {
        lemma_digits_only(values[i] as nat);
        assert forall|k: int| 0 <= k < v[i].len() implies v[i][k] != ';' && v[i][k] != '\n' by {
            assert('0' <= decimal(values[i] as int)[k] <= '9');
        }
    }
    lemma_words_spaced(v);
    assert forall|i: int| 0 <= i < v.len() implies literal(#[trigger] v[i]) == Some(
        values[i] as nat,
    ) by {
        lemma_literal(values[i] as nat);
    }
    lemma_all_literals(v, values);
    lemma_words_joined(text, ' ', Seq::empty());
    assert(text.push(' ') + Seq::<char>::empty() =~= text.push(' '));
    assert(words_of(text) + words_of(Seq::empty()) =~= words_of(text));
    lemma_words_joined(Seq::empty(), ' ', text);
    assert(Seq::<char>::empty().push(' ') + text =~= seq![' '] + text);
    assert(words_of(Seq::empty()) + words_of(text) =~= words_of(text));
    lemma_joined_chars(v, ' ', ';');
    lemma_joined_chars(v, ' ', '\n');
    if values.len() > 0 {
        assert(v[0].len() > 0 && solid(v[0]));
        assert(v[v.len() - 1].len() > 0 && solid(v[v.len() - 1]));
        lemma_joined_ends(v, ' ');
        assert(!is_space(v[0][0]));
        assert(!is_space(v.last()[v.last().len() - 1]));
    }
}

proof fn lemma_elements(values: Seq<u64>)
    ensures
        felts(values) == elements(values),
{
    assert(felts(values) =~= elements(values));
}

/// An entry that is written as four key elements, a semicolon and any number of
/// values is the entry of the advice map that the source declares. Without four
/// key elements there is none.
#[verifier::rlimit(50)]
pub proof fn lemma_entry_written(key: Seq<u64>, values: Seq<u64>)
    ensures
        declared_advice_map("# advice_map: "@ + spaced(key) + " ; "@ + spaced(values))
            == if key.len() == 4 {
            seq![(elements(key), elements(values))]
        } else {
            Seq::empty()
        },
{
    let name = "advice_map:"@;
    reveal_strlit("advice_map:");
    reveal_strlit("# advice_map: ");
    reveal_strlit("# ");
    reveal_strlit(" ");
    reveal_strlit(" ; ");
    let k = spaced(key);
    let v = spaced(values);
    let text = k + " ; "@ + v;
    let line = "# advice_map: "@ + k + " ; "@ + v;
    lemma_spaced(key);
    lemma_spaced(values);
    assert(line =~= declaration_line(name, text));
    assert forall|i: int| 0 <= i < name.len() implies name[i] != '\n' by {}
    assert forall|i: int| 0 <= i < text.len() implies text[i] != '\n' by {
        if i < k.len() {
            assert(k.contains(k[i]));
        } else if i >= k.len() + 3 {
            assert(v.contains(v[i - k.len() - 3]));
        }
    }
    lemma_no_feed(name, text);
    // what the line declares, trimmed
    let head: Seq<char> = if key.len() > 0 {
        k.push(' ')
    } else {
        Seq::empty()
    };
    let tail: Seq<char> = if values.len() > 0 {
        seq![' '] + v
    } else {
        Seq::empty()
    };
    let shown = head + seq![';'] + tail;
    let pad: Seq<char> = if key.len() > 0 {
        Seq::empty()
    } else {
        seq![' ']
    };
    let rest: Seq<char> = if values.len() > 0 {
        Seq::empty()
    } else {
        seq![' ']
    };
    assert(k.len() == 0 ==> k =~= Seq::empty());
    assert(v.len() == 0 ==> v =~= Seq::empty());
    assert(text =~= pad + shown + rest);
    lemma_declares(name, pad, shown, rest);
    assert(declared(line, name) == Some(shown));
    assert forall|i: int| 0 <= i < head.len() implies head[i] != ';' by {
        if i < k.len() {
            assert(k.contains(k[i]));
        }
    }
    lemma_cut_at(head, seq![';'] + tail, ';');
    assert(shown =~= head + (seq![';'] + tail));
    let n = cut(shown, ';') as int;
    assert(n == head.len());
    assert(shown.take(n) =~= head);
    assert(shown.skip(n + 1) =~= tail);
    assert(literals(words_of(head)) == key) by {
        if key.len() == 0 {
            assert(head =~= k);
        }
    }
    assert(literals(words_of(tail)) == values) by {
        if values.len() == 0 {
            assert(tail =~= v);
        }
    }
    lemma_elements(key);
    lemma_elements(values);
    assert(seq![line].drop_last() =~= Seq::empty());
    reveal_with_fuel(map_entries, 2);
    if key.len() == 4 {
        assert(map_entry(line) == Some((elements(key), elements(values))));
        assert(map_entries(seq![line]) =~= seq![(elements(key), elements(values))]);
    } else {
        assert(map_entry(line) is None);
        assert(map_entries(seq![line]) =~= Seq::empty());
    }
}

/// What a line declares, with white space around it.
proof fn lemma_declares(key: Seq<char>, pad: Seq<char>, v: Seq<char>, rest: Seq<char>)
    requires
        key.len() > 0,
        !is_space(key[0]),
        !is_space(key.last()),
        v.len() > 0,
        !is_space(v[0]),
        !is_space(v.last()),
        blank(pad),
        blank(rest),
    ensures
        declared(declaration_line(key, pad + v + rest), key) == Some(v),
{
    let other: Seq<char> = if key[0] == 'a' {
        seq!['b']
    } else {
        seq!['a']
    };
    let text = pad + v + rest;
    lemma_declaration_line(key, other, text);
    reveal_strlit(" ");
    assert(" "@ =~= seq![' ']);
    let s = " "@ + text;
    let front = seq![' '] + pad;
    assert(blank(front)) by {
        assert forall|i: int| 0 <= i < front.len() implies is_space(#[trigger] front[i]) by {
            if i > 0 {
                assert(is_space(pad[i - 1]));
            }
        }
    }
    assert(s =~= (front + v) + rest);
    crate::text_laws::lemma_blank_end(front + v, rest);
    assert((front + v).last() == v.last());
    assert(trimmed_end(s) == front + v);
    lemma_trims(front, v, Seq::empty());
    assert(front + v + Seq::<char>::empty() =~= front + v);
}

/// The rows of leaves, each of four elements or not.
pub open spec fn rows_of(leaves: Seq<Seq<u64>>) -> Seq<Seq<char>> {
    Seq::new(leaves.len(), |i: int| spaced(leaves[i]))
}

/// The leaves as words of field elements.
pub open spec fn words_in(leaves: Seq<Seq<u64>>) -> Seq<Seq<u64>> {
    Seq::new(leaves.len(), |i: int| elements(leaves[i]))
}

proof fn lemma_leaves(parts: Seq<Seq<char>>, leaves: Seq<Seq<u64>>)
    requires
        parts.len() == leaves.len(),
        forall|i: int| 0 <= i < parts.len() ==> literals(words_of(#[trigger] parts[i])) == leaves[i],
        forall|i: int| 0 <= i < leaves.len() ==> (#[trigger] leaves[i]).len() == 4,
    ensures
        leaves_in(parts) == words_in(leaves),
    decreases parts.len(),
{
    if parts.len() > 0 {
        let n = parts.len() - 1;
        assert(literals(words_of(parts[n])) == leaves[n]);
        assert(leaves[n].len() == 4);
        lemma_elements(leaves[n]);
        let p = parts.drop_last();
        let l = leaves.drop_last();
        assert forall|i: int| 0 <= i < p.len() implies literals(words_of(#[trigger] p[i]))
            == l[i] by {
            assert(literals(words_of(parts[i])) == leaves[i]);
        }
        assert forall|i: int| 0 <= i < l.len() implies (#[trigger] l[i]).len() == 4 by {
            assert(leaves[i].len() == 4);
        }
        lemma_leaves(p, l);
        assert(words_in(leaves) =~= words_in(l).push(elements(leaves[n])));
    } else {
        assert(words_in(leaves) =~= Seq::empty());
    }
}

/// A number is a power of two exactly if some power of two is that number.
pub proof fn lemma_power_of_two(n: nat)
    ensures
        power_of_two(n) <==> exists|k: nat| n == #[trigger] pow2(k),
    decreases n,
{
    if power_of_two(n) {
        if n == 1 {
            vstd::arithmetic::power2::lemma2_to64();
            assert(n == pow2(0));
        } else {
            lemma_power_of_two(n / 2);
            let k = choose|k: nat| n / 2 == #[trigger] pow2(k);
            lemma_pow2_unfold(k + 1);
            assert(n == pow2(k + 1));
        }
    }
    if exists|k: nat| n == #[trigger] pow2(k) {
        let k = choose|k: nat| n == #[trigger] pow2(k);
        if k == 0 {
            vstd::arithmetic::power2::lemma2_to64();
        } else {
            lemma_pow2_unfold(k);
            lemma_pow2_pos((k - 1) as nat);
            let half = pow2((k - 1) as nat);
            assert(n == 2 * half);
            assert(n / 2 == half);
            assert(n % 2 == 0);
            lemma_power_of_two(half);
            assert(n / 2 == pow2((k - 1) as nat));
        }
    }
}

/// Leaves that are written with semicolons between them are the leaves of the
/// tree that the source declares, where their number is a power of two above
/// one. Else it declares none.
#[verifier::rlimit(50)]
pub proof fn lemma_tree_written(leaves: Seq<Seq<u64>>)
    requires
        forall|i: int| 0 <= i < leaves.len() ==> (#[trigger] leaves[i]).len() == 4,
    ensures
        (exists|k: nat| k > 0 && leaves.len() == #[trigger] pow2(k)) ==> declared_trees(
            "# merkle_tree: "@ + joined(rows_of(leaves), ';'),
        ) == seq![words_in(leaves)],
        !(exists|k: nat| k > 0 && leaves.len() == #[trigger] pow2(k)) ==> declared_trees(
            "# merkle_tree: "@ + joined(rows_of(leaves), ';'),
        ) == Seq::<Seq<Seq<u64>>>::empty(),
{
    let name = "merkle_tree:"@;
    reveal_strlit("merkle_tree:");
    reveal_strlit("# merkle_tree: ");
    reveal_strlit("# ");
    reveal_strlit(" ");
    let rows = rows_of(leaves);
    let text = joined(rows, ';');
    let line = "# merkle_tree: "@ + text;
    assert(line =~= declaration_line(name, text));
    assert forall|i: int| 0 <= i < name.len() implies name[i] != '\n' by {}
    assert forall|i: int| 0 <= i < rows.len() implies {
        &&& (#[trigger] rows[i]).len() > 0
        &&& !rows[i].contains(';')
        &&& !rows[i].contains('\n')
        &&& !is_space(rows[i][0])
        &&& !is_space(rows[i].last())
        &&& literals(words_of(rows[i])) == leaves[i]
    } by {
        assert(leaves[i].len() == 4);
        lemma_spaced(leaves[i]);
    }
    lemma_joined_chars(rows, ';', '\n');
    lemma_no_feed(name, text);
    let n = leaves.len();
    lemma_power_of_two(n);
    lemma_pow2_above_one(n);
    if n > 0 {
        assert(rows[0].len() > 0);
        assert(rows[n - 1].len() > 0);
        lemma_joined_ends(rows, ';');
        lemma_split_joined(rows, ';');
        lemma_leaves(rows, leaves);
    } else {
        assert(text =~= Seq::empty());
        lemma_one_piece(text, ';');
        assert(words_of(text) =~= Seq::empty());
        reveal_with_fuel(leaves_in, 2);
        assert(literals(words_of(text)) =~= Seq::empty());
        assert(seq![text].drop_last() =~= Seq::empty());
        assert(leaves_in(split_on(text, ';')) =~= Seq::empty());
    }
    lemma_declares_text(name, text);
    assert(seq![line].drop_last() =~= Seq::empty());
    reveal_with_fuel(trees_in, 2);
    if tree_leaves(line) is Some {
        assert(trees_in(seq![line]) =~= seq![words_in(leaves)]);
    } else {
        assert(trees_in(seq![line]) =~= Seq::empty());
    }
}

proof fn lemma_pow2_above_one(n: nat)
    ensures
        (exists|k: nat| k > 0 && n == #[trigger] pow2(k)) <==> n >= 2 && exists|k: nat|
            n == #[trigger] pow2(k),
{
    vstd::arithmetic::power2::lemma2_to64();
    if exists|k: nat| k > 0 && n == #[trigger] pow2(k) {
        let k = choose|k: nat| k > 0 && n == #[trigger] pow2(k);
        lemma_pow2_unfold(k);
        lemma_pow2_pos((k - 1) as nat);
    }
    if n >= 2 && exists|k: nat| n == #[trigger] pow2(k) {
        let k = choose|k: nat| n == #[trigger] pow2(k);
        assert(k > 0);
    }
}

proof fn lemma_map_joined(a: Seq<Seq<char>>, b: Seq<Seq<char>>)
    ensures
        map_entries(a + b) == map_entries(a) + map_entries(b),
    decreases b.len(),
{
    if b.len() == 0 {
        assert(a + b =~= a);
        assert(map_entries(a) + map_entries(b) =~= map_entries(a));
    } else {
        assert((a + b).drop_last() =~= a + b.drop_last());
        lemma_map_joined(a, b.drop_last());
        assert(map_entries(a + b) =~= map_entries(a) + map_entries(b));
    }
}

proof fn lemma_trees_joined(a: Seq<Seq<char>>, b: Seq<Seq<char>>)
    ensures
        trees_in(a + b) == trees_in(a) + trees_in(b),
    decreases b.len(),
{
    if b.len() == 0 {
        assert(a + b =~= a);
        assert(trees_in(a) + trees_in(b) =~= trees_in(a));
    } else {
        assert((a + b).drop_last() =~= a + b.drop_last());
        lemma_trees_joined(a, b.drop_last());
        assert(trees_in(a + b) =~= trees_in(a) + trees_in(b));
    }
}

/// A line that is no comment declares nothing.
proof fn lemma_no_comment(line: Seq<char>, key: Seq<char>)
    requires
        trimmed(line).len() > 0 ==> trimmed(line)[0] != '#',
    ensures
        comment_body(line) is None,
        declared(line, key) is None,
        continuation(line) is None,
{
    reveal_strlit("#");
    let t = trimmed(line);
    if "#"@.is_prefix_of(t) {
        assert(t.subrange(0, 1)[0] == '#');
    }
}

/// Every declaration of a source counts: the entries and the trees of a source
/// are those of its first part followed by those of the part behind a line
/// feed.
pub proof fn lemma_inputs_joined(first: Seq<char>, second: Seq<char>)
    ensures
        declared_advice_map(first.push('\n') + second) == declared_advice_map(first)
            + declared_advice_map(second),
        declared_trees(first.push('\n') + second) == declared_trees(first) + declared_trees(second),
{
    lemma_lines_joined(first.push('\n'), second);
    lemma_map_joined(lines_of(first.push('\n')), lines_of(second));
    lemma_trees_joined(lines_of(first.push('\n')), lines_of(second));
    lemma_lines_line_feed(first);
    let rows = lines_of(first);
    let none = Seq::<char>::empty();
    if lines_of(first.push('\n')) != rows {
        assert(rows.push(none).drop_last() =~= rows);
        lemma_trims(none, none, none);
        assert(none + none + none =~= none);
        lemma_no_comment(none, "advice_map:"@);
        lemma_no_comment(none, "merkle_tree:"@);
        assert(map_entries(rows.push(none)) == map_entries(rows));
        assert(trees_in(rows.push(none)) == trees_in(rows));
    }
}

/// A line of code declares no input.
pub proof fn lemma_code_declares_nothing(line: Seq<char>)
    requires
        !line.contains('\n'),
        trimmed(line).len() > 0 ==> trimmed(line)[0] != '#',
    ensures
        declared_operand_stack(line) == Seq::<u64>::empty(),
        declared_advice_stack(line) == Seq::<u64>::empty(),
        declared_advice_map(line) == Seq::<(Seq<u64>, Seq<u64>)>::empty(),
        declared_trees(line) == Seq::<Seq<Seq<u64>>>::empty(),
{
    lemma_no_comment(line, "operand_stack:"@);
    lemma_no_comment(line, "advice_stack:"@);
    lemma_no_comment(line, "advice_map:"@);
    lemma_no_comment(line, "merkle_tree:"@);
    if line.len() > 0 {
        assert forall|i: int| 0 <= i < line.len() implies line[i] != '\n' by {
            assert(line.contains(line[i]));
        }
        lemma_one_line(line);
        assert(seq![line].drop_last() =~= Seq::empty());
        reveal_with_fuel(listed_values, 2);
        reveal_with_fuel(map_entries, 2);
        reveal_with_fuel(trees_in, 2);
    }
}

/// The line goes on with a kernel's source: a comment that begins with `>`.
pub open spec fn goes_on(line: Seq<char>) -> bool {
    &&& comment_body(line) is Some
    &&& comment_body(line)->0.len() > 0
    &&& comment_body(line)->0[0] == '>'
}

proof fn lemma_goes_on(line: Seq<char>)
    ensures
        goes_on(line) <==> continuation(line) is Some,
{
    reveal_strlit("#");
    reveal_strlit(">");
    let t = trimmed(line);
    if "#"@.is_prefix_of(t) {
        let u = t.skip(1);
        let body = crate::text::trimmed_start(u);
        crate::text_laws::lemma_trimmed_end(body);
        crate::text_laws::lemma_trimmed_start(u);
        let whole = trimmed(u);
        assert(whole == trimmed_end(body));
        if ">"@.is_prefix_of(body) {
            assert(body.subrange(0, 1)[0] == '>');
            if whole.len() == 0 {
                assert(is_space(body.skip(0)[0]));
            }
            assert(whole[0] == body.take(whole.len() as int)[0]);
        } else if whole.len() > 0 {
            assert(whole[0] == body.take(whole.len() as int)[0]);
            if whole[0] == '>' {
                assert(body.subrange(0, 1) =~= ">"@);
            }
        }
    }
}

/// The line that carries one line of a kernel's source.
pub open spec fn carried(text: Seq<char>) -> Seq<char> {
    "# > "@ + text
}

proof fn lemma_carried(text: Seq<char>)
    requires
        text.len() > 0 ==> !is_space(text.last()),
    ensures
        continuation(carried(text)) == Some(text),
{
    reveal_strlit("#");
    reveal_strlit(">");
    reveal_strlit(" ");
    reveal_strlit("# > ");
    let line = carried(text);
    let none = Seq::<char>::empty();
    let core: Seq<char> = if text.len() == 0 {
        seq!['#', ' ', '>']
    } else {
        line
    };
    let rest: Seq<char> = if text.len() == 0 {
        seq![' ']
    } else {
        none
    };
    assert(text.len() == 0 ==> text =~= none);
    assert(line =~= none + core + rest);
    assert(core[0] == '#');
    assert(core.last() == if text.len() == 0 {
        '>'
    } else {
        text.last()
    });
    lemma_trims(none, core, rest);
    let t = trimmed(line);
    assert(t == core);
    assert("#"@ =~= t.subrange(0, 1));
    let inner = t.skip(1);
    let body = inner.drop_first();
    assert(inner[0] == ' ');
    assert(body[0] == '>');
    reveal_with_fuel(crate::text::trimmed_start, 2);
    assert(crate::text::trimmed_start(inner) == body);
    assert(">"@ =~= body.subrange(0, 1));
    let behind = body.skip(1);
    if text.len() == 0 {
        assert(behind =~= none);
    } else {
        assert(behind =~= seq![' '] + text);
        assert(" "@ =~= behind.subrange(0, 1));
        assert(behind.skip(1) =~= text);
    }
}

proof fn lemma_block_len(block: Seq<Seq<char>>, after: Seq<Seq<char>>)
    requires
        forall|i: int| 0 <= i < block.len() ==> continuation(#[trigger] block[i]) is Some,
        after.len() > 0 ==> continuation(after[0]) is None,
    ensures
        block_len(block + after) == block.len(),
    decreases block.len(),
{
    if block.len() == 0 {
        assert(block + after =~= after);
    } else {
        assert(continuation(block[0]) is Some);
        let less = block.drop_first();
        assert forall|i: int| 0 <= i < less.len() implies continuation(
            #[trigger] less[i],
        ) is Some by {
            assert(continuation(block[i + 1]) is Some);
        }
        lemma_block_len(less, after);
        assert((block + after).drop_first() =~= less + after);
    }
}

proof fn lemma_block_text(texts: Seq<Seq<char>>)
    requires
        forall|i: int|
            0 <= i < texts.len() && (#[trigger] texts[i]).len() > 0 ==> !is_space(texts[i].last()),
    ensures
        block_text(texts.map_values(|t: Seq<char>| carried(t))) == joined(texts, '\n'),
    decreases texts.len(),
{
    let block = texts.map_values(|t: Seq<char>| carried(t));
    if texts.len() > 0 {
        let last = texts[texts.len() - 1];
        assert(last.len() > 0 ==> !is_space(last.last()));
        lemma_carried(last);
        assert(block.last() == carried(last));
        if texts.len() > 1 {
            let less = texts.drop_last();
            assert forall|i: int|
                0 <= i < less.len() && (#[trigger] less[i]).len() > 0 implies !is_space(
                less[i].last(),
            ) by {
                assert(texts[i].len() > 0);
            }
            lemma_block_text(less);
            assert(block.drop_last() =~= less.map_values(|t: Seq<char>| carried(t)));
        }
    } else {
        assert(block_text(block) =~= joined(texts, '\n'));
    }
}

/// The lines of a kernel's source, each carried by a comment behind the first
/// `# kernel_module:` line, are the source of the kernel, up to the first line
/// that carries none.
#[verifier::rlimit(50)]
pub proof fn lemma_kernel_written(
    before: Seq<Seq<char>>,
    texts: Seq<Seq<char>>,
    after: Seq<Seq<char>>,
)
    requires
        forall|i: int|
            0 <= i < before.len() ==> comment_body(#[trigger] before[i]) != Some("kernel_module:"@),
        texts.len() > 0,
        forall|i: int|
            0 <= i < texts.len() && (#[trigger] texts[i]).len() > 0 ==> !is_space(texts[i].last()),
        after.len() > 0 ==> !goes_on(after[0]),
    ensures
        kernel_in(
            before.push("# kernel_module:"@) + texts.map_values(|t: Seq<char>| carried(t)) + after,
        ) == Some(joined(texts, '\n')),
    decreases before.len(),
{
    let block = texts.map_values(|t: Seq<char>| carried(t));
    let lines = before.push("# kernel_module:"@) + block + after;
    if before.len() > 0 {
        assert(comment_body(before[0]) != Some("kernel_module:"@));
        let less = before.drop_first();
        assert forall|i: int| 0 <= i < less.len() implies comment_body(#[trigger] less[i]) != Some(
            "kernel_module:"@,
        ) by {
            assert(less[i] == before[i + 1]);
        }
        lemma_kernel_written(less, texts, after);
        assert(lines.drop_first() =~= less.push("# kernel_module:"@) + block + after);
        assert(lines[0] == before[0]);
    } else {
        let rest = lines.drop_first();
        assert(rest =~= block + after);
        assert forall|i: int| 0 <= i < block.len() implies continuation(
            #[trigger] block[i],
        ) is Some by {
            assert(texts[i].len() > 0 ==> !is_space(texts[i].last()));
            lemma_carried(texts[i]);
        }
        if after.len() > 0 {
            lemma_goes_on(after[0]);
        }
        lemma_block_len(block, after);
        lemma_block_text(texts);
        assert(rest.take(block.len() as int) =~= block);
        assert(lines[0] == "# kernel_module:"@);
        lemma_header();
    }
}

proof fn lemma_header()
    ensures
        comment_body("# kernel_module:"@) == Some("kernel_module:"@),
{
    reveal_strlit("#");
    reveal_strlit("kernel_module:");
    reveal_strlit("# kernel_module:");
    let none = Seq::<char>::empty();
    let line = "# kernel_module:"@;
    lemma_trims(none, line, none);
    assert(none + line + none =~= line);
    assert("#"@ =~= line.subrange(0, 1));
    let body = "kernel_module:"@;
    lemma_trims(seq![' '], body, none);
    assert(seq![' '] + body + none =~= line.skip(1));
}

/// Without a `# kernel_module:` line, and without a line behind one that goes
/// on with it, a source has no kernel.
pub proof fn lemma_no_kernel(lines: Seq<Seq<char>>)
    requires
        forall|i: int|
            0 <= i < lines.len() && comment_body(#[trigger] lines[i]) == Some("kernel_module:"@)
                ==> i + 1 == lines.len() || !goes_on(lines[i + 1]),
    ensures
        kernel_in(lines) is None,
    decreases lines.len(),
{
    if lines.len() > 0 {
        let rest = lines.drop_first();
        assert forall|i: int|
            0 <= i < rest.len() && comment_body(#[trigger] rest[i]) == Some(
                "kernel_module:"@,
            ) implies i + 1 == rest.len() || !goes_on(rest[i + 1]) by {
            assert(rest[i] == lines[i + 1]);
        }
        lemma_no_kernel(rest);
        if comment_body(lines[0]) == Some("kernel_module:"@) && rest.len() > 0 {
            lemma_goes_on(rest[0]);
        }
    }
}

/// White space before the `#`, around the key and around the text of a
/// declaration makes no difference, and none is needed.
pub proof fn lemma_spacing(
    a: Seq<char>,
    b: Seq<char>,
    key: Seq<char>,
    c: Seq<char>,
    v: Seq<char>,
    d: Seq<char>,
)
    requires
        blank(a),
        blank(b),
        blank(c),
        blank(d),
        key.len() > 0,
        !is_space(key[0]),
        !is_space(key.last()),
        v.len() > 0,
        !is_space(v[0]),
        !is_space(v.last()),
    ensures
        declared(a + seq!['#'] + b + key + c + v + d, key) == Some(v),
{
    reveal_strlit("#");
    let none = Seq::<char>::empty();
    let line = a + seq!['#'] + b + key + c + v + d;
    let core = seq!['#'] + b + key + c + v;
    assert(line =~= a + core + d);
    assert(core[0] == '#' && core.last() == v.last());
    lemma_trims(a, core, d);
    let t = trimmed(line);
    assert(t == core);
    assert("#"@ =~= t.subrange(0, 1));
    let inner = key + c + v;
    assert(t.skip(1) =~= b + inner + none);
    assert(inner[0] == key[0] && inner.last() == v.last());
    lemma_trims(b, inner, none);
    assert(comment_body(line) == Some(inner));
    assert(key =~= inner.subrange(0, key.len() as int));
    assert(inner.skip(key.len() as int) =~= c + v + none);
    lemma_trims(c, v, none);
}

/// A line goes on with a kernel's source behind `#` and `>`, with white space
/// between them or none. One space behind the `>` is not part of the source.
pub proof fn lemma_continuation(a: Seq<char>, b: Seq<char>, text: Seq<char>)
    requires
        blank(a),
        blank(b),
        text.len() > 0,
        !is_space(text.last()),
    ensures
        continuation(a + seq!['#'] + b + seq!['>', ' '] + text) == Some(text),
        text[0] != ' ' ==> continuation(a + seq!['#'] + b + seq!['>'] + text) == Some(text),
{
    lemma_goes_on_with(a, b, seq![' '] + text);
    let one = a + seq!['#'] + b + seq!['>', ' '] + text;
    assert(one =~= a + seq!['#'] + b + seq!['>'] + (seq![' '] + text));
    let behind = seq![' '] + text;
    reveal_strlit(" ");
    assert(" "@ =~= behind.subrange(0, 1));
    assert(behind.skip(1) =~= text);
    if text[0] != ' ' {
        lemma_goes_on_with(a, b, text);
        if " "@.is_prefix_of(text) {
            assert(text.subrange(0, 1)[0] == ' ');
        }
    }
}

proof fn lemma_goes_on_with(a: Seq<char>, b: Seq<char>, rest: Seq<char>)
    requires
        blank(a),
        blank(b),
        rest.len() > 0,
        !is_space(rest.last()),
    ensures
        continuation(a + seq!['#'] + b + seq!['>'] + rest) == if " "@.is_prefix_of(rest) {
            Some(rest.skip(1))
        } else {
            Some(rest)
        },
{
    reveal_strlit("#");
    reveal_strlit(">");
    reveal_strlit(" ");
    let none = Seq::<char>::empty();
    let line = a + seq!['#'] + b + seq!['>'] + rest;
    let core = seq!['#'] + b + seq!['>'] + rest;
    assert(line =~= a + core + none);
    assert(core[0] == '#' && core.last() == rest.last());
    lemma_trims(a, core, none);
    let t = trimmed(line);
    assert("#"@ =~= t.subrange(0, 1));
    let body = seq!['>'] + rest;
    assert(t.skip(1) =~= b + body);
    crate::text_laws::lemma_blank_start(b, body);
    assert(body[0] == '>');
    assert(crate::text::trimmed_start(body) == body);
    assert(">"@ =~= body.subrange(0, 1));
    assert(body.skip(1) =~= rest);
}

/// The texts, each trimmed.
pub open spec fn all_trimmed(v: Seq<Seq<char>>) -> Seq<Seq<char>> {
    Seq::new(v.len(), |i: int| trimmed(v[i]))
}

proof fn lemma_trimmed_front(c: char, s: Seq<char>)
    requires
        is_space(c),
    ensures
        trimmed(seq![c] + s) == trimmed(s),
{
    crate::text_laws::lemma_blank_start(seq![c], s);
}

proof fn lemma_trimmed_back(s: Seq<char>, c: char)
    requires
        is_space(c),
    ensures
        trimmed(s.push(c)) == trimmed(s),
{
    crate::text_laws::lemma_trimmed(s);
    let (a, b) = choose|a: Seq<char>, b: Seq<char>|
        blank(a) && blank(b) && #[trigger] (a + trimmed(s) + b) == s;
    let t = trimmed(s);
    let rest = b.push(c);
    assert forall|i: int| 0 <= i < rest.len() implies is_space(#[trigger] rest[i]) by {
        if i < b.len() {
            assert(is_space(b[i]));
        }
    }
    assert(s.push(c) =~= a + t + rest);
    lemma_trims(a, t, rest);
}

/// White space before a text makes no difference to its trimmed pieces.
proof fn lemma_pieces_front(c: char, s: Seq<char>, sep: char)
    requires
        is_space(c),
        c != sep,
    ensures
        all_trimmed(split_on(seq![c] + s, sep)) == all_trimmed(split_on(s, sep)),
{
    let t = seq![c] + s;
    assert(t.drop_first() =~= s);
    let n = cut(s, sep) as int;
    assert(cut(t, sep) == n + 1);
    crate::text::lemma_cut(s, sep);
    let before = split_on(s, sep);
    let now = split_on(t, sep);
    if n >= s.len() {
        lemma_trimmed_front(c, s);
        assert(all_trimmed(now) =~= all_trimmed(before));
    } else {
        assert(t.take(n + 1) =~= seq![c] + s.take(n));
        assert(t.skip(n + 2) =~= s.skip(n + 1));
        lemma_trimmed_front(c, s.take(n));
        assert(now =~= seq![t.take(n + 1)] + split_on(s.skip(n + 1), sep));
        assert forall|i: int| 0 <= i < now.len() implies trimmed(now[i]) == trimmed(
            before[i],
        ) by {
            if i > 0 {
                assert(now[i] == split_on(s.skip(n + 1), sep)[i - 1]);
            }
        }
        assert(all_trimmed(now) =~= all_trimmed(before));
    }
}

/// White space behind a text makes no difference to its trimmed pieces.
proof fn lemma_pieces_back(s: Seq<char>, c: char, sep: char)
    requires
        is_space(c),
        c != sep,
    ensures
        all_trimmed(split_on(s.push(c), sep)) == all_trimmed(split_on(s, sep)),
    decreases s.len(),
{
    let t = s.push(c);
    crate::text::lemma_cut(s, sep);
    crate::text::lemma_cut(t, sep);
    let n = cut(s, sep) as int;
    if n >= s.len() {
        assert(!t.contains(sep)) by {
            assert forall|i: int| 0 <= i < t.len() implies t[i] != sep by {
                if i < s.len() {
                    assert(s[i] != sep);
                }
            }
        }
        lemma_one_piece(t, sep);
        lemma_trimmed_back(s, c);
        assert(all_trimmed(split_on(t, sep)) =~= all_trimmed(split_on(s, sep)));
    } else {
        let head = s.take(n);
        assert(!head.contains(sep));
        let tail = t.skip(n);
        assert(tail[0] == s[n]);
        lemma_cut_at(head, tail, sep);
        assert(t =~= head + tail);
        let rest = s.skip(n + 1);
        assert(t.skip(n + 1) =~= rest.push(c));
        assert(t.take(n) =~= head);
        lemma_pieces_back(rest, c, sep);
        let a = split_on(rest.push(c), sep);
        let b = split_on(rest, sep);
        assert(split_on(t, sep) =~= seq![head] + a);
        assert(split_on(s, sep) =~= seq![head] + b);
        assert(a.len() == all_trimmed(a).len() && b.len() == all_trimmed(b).len());
        assert forall|i: int| 0 <= i < a.len() implies trimmed(a[i]) == trimmed(b[i]) by {
            assert(all_trimmed(a)[i] == all_trimmed(b)[i]);
        }
        assert(all_trimmed(split_on(t, sep)) =~= all_trimmed(split_on(s, sep)));
    }
}

proof fn lemma_pieces_around(a: Seq<char>, s: Seq<char>, b: Seq<char>, sep: char)
    requires
        blank(a),
        blank(b),
        !a.contains(sep),
        !b.contains(sep),
    ensures
        all_trimmed(split_on(a + s + b, sep)) == all_trimmed(split_on(s, sep)),
    decreases a.len() + b.len(),
{
    if a.len() > 0 {
        let less = a.drop_first();
        assert(is_space(a[0]));
        assert(a.contains(a[0]));
        assert forall|i: int| 0 <= i < less.len() implies is_space(#[trigger] less[i]) && less[i]
            != sep by {
            assert(is_space(a[i + 1]));
            assert(a.contains(a[i + 1]));
        }
        lemma_pieces_around(less, s, b, sep);
        lemma_pieces_front(a[0], less + s + b, sep);
        assert(a + s + b =~= seq![a[0]] + (less + s + b));
    } else if b.len() > 0 {
        let less = b.drop_last();
        let c = b[b.len() - 1];
        assert(is_space(c));
        assert(b.contains(c));
        assert forall|i: int| 0 <= i < less.len() implies is_space(#[trigger] less[i]) && less[i]
            != sep by {
            assert(is_space(b[i]));
            assert(b.contains(b[i]));
        }
        lemma_pieces_around(a, s, less, sep);
        lemma_pieces_back(a + s + less, c, sep);
        assert(a + s + b =~= (a + s + less).push(c));
    } else {
        assert(a + s + b =~= s);
    }
}

/// The values of a declared stack are those of the pieces between the commas
/// that are literals, whatever white space stands around them, in order. A piece
/// that is none is passed over.
pub proof fn lemma_list_read(pieces: Seq<Seq<char>>)
    requires
        pieces.len() > 0,
        forall|i: int|
            0 <= i < pieces.len() ==> !(#[trigger] pieces[i]).contains(',') && !pieces[i].contains(
                '\n',
            ),
    ensures
        declared_operand_stack("# operand_stack: "@ + joined(pieces, ',')) == literals(
            all_trimmed(pieces),
        ),
        declared_advice_stack("# advice_stack: "@ + joined(pieces, ',')) == literals(
            all_trimmed(pieces),
        ),
{
    let operand = "operand_stack:"@;
    let advice = "advice_stack:"@;
    reveal_strlit("operand_stack:");
    reveal_strlit("advice_stack:");
    reveal_strlit("# operand_stack: ");
    reveal_strlit("# advice_stack: ");
    reveal_strlit("# ");
    reveal_strlit(" ");
    let text = joined(pieces, ',');
    assert("# operand_stack: "@ + text =~= declaration_line(operand, text));
    assert("# advice_stack: "@ + text =~= declaration_line(advice, text));
    assert forall|i: int| 0 <= i < operand.len() implies operand[i] != '\n' by {}
    assert forall|i: int| 0 <= i < advice.len() implies advice[i] != '\n' by {}
    assert forall|i: int| 0 <= i < pieces.len() implies !(#[trigger] pieces[i]).contains('\n') by {}
    lemma_joined_chars(pieces, ',', '\n');
    lemma_list_behind(operand, advice, pieces);
    lemma_list_behind(advice, operand, pieces);
}

proof fn lemma_list_behind(key: Seq<char>, other: Seq<char>, pieces: Seq<Seq<char>>)
    requires
        key.len() > 0,
        !is_space(key[0]),
        !is_space(key.last()),
        !key.contains('\n'),
        other.len() > 0,
        other[0] != key[0],
        pieces.len() > 0,
        forall|i: int| 0 <= i < pieces.len() ==> !(#[trigger] pieces[i]).contains(','),
        !joined(pieces, ',').contains('\n'),
    ensures
        listed_values(lines_of(declaration_line(key, joined(pieces, ','))), key) == literals(
            all_trimmed(pieces),
        ),
{
    let text = joined(pieces, ',');
    let line = declaration_line(key, text);
    lemma_no_feed(key, text);
    lemma_declaration_line(key, other, text);
    reveal_strlit(" ");
    let s = " "@ + text;
    let u = trimmed(trimmed_end(s));
    assert(declared(line, key) == Some(u));
    // the declared text is the written one without the white space around it
    crate::text_laws::lemma_trimmed_end(s);
    let e = trimmed_end(s);
    let behind = s.skip(e.len() as int);
    crate::text_laws::lemma_trimmed(e);
    let (a, b) = choose|a: Seq<char>, b: Seq<char>|
        blank(a) && blank(b) && #[trigger] (a + trimmed(e) + b) == e;
    let rest = b + behind;
    assert forall|i: int| 0 <= i < rest.len() implies is_space(#[trigger] rest[i]) by {
        if i < b.len() {
            assert(is_space(b[i]));
        } else {
            assert(is_space(behind[i - b.len()]));
        }
    }
    assert(s =~= e + behind);
    assert(s =~= a + u + rest);
    lemma_blank_no_comma(a);
    lemma_blank_no_comma(rest);
    lemma_pieces_around(a, u, rest, ',');
    assert(" "@ =~= seq![' ']);
    lemma_pieces_front(' ', text, ',');
    lemma_split_joined(pieces, ',');
    let parts = split_on(u, ',');
    assert(parts.map_values(|t: Seq<char>| trimmed(t)) =~= all_trimmed(parts));
    assert(seq![line].drop_last() =~= Seq::empty());
    reveal_with_fuel(listed_values, 2);
    assert(listed_values(seq![line], key) =~= literals(all_trimmed(parts)));
}

proof fn lemma_blank_no_comma(a: Seq<char>)
    requires
        blank(a),
    ensures
        !a.contains(','),
{
    if a.contains(',') {
        let i = a.index_of(',');
        assert(is_space(a[i]));
    }
}

/// A row of a tree that does not hold four literals is no leaf.
pub proof fn lemma_row_passed_over(rows: Seq<Seq<char>>, row: Seq<char>)
    ensures
        literals(words_of(row)).len() != 4 ==> leaves_in(rows.push(row)) == leaves_in(rows),
        literals(words_of(row)).len() == 4 ==> leaves_in(rows.push(row)) == leaves_in(rows).push(
            elements(literals(words_of(row))),
        ),
{
    assert(rows.push(row).drop_last() =~= rows);
    lemma_elements(literals(words_of(row)));
}

/// A declaration without a semicolon is no entry of the advice map.
pub proof fn lemma_entry_needs_semicolon(v: Seq<char>)
    requires
        !v.contains(';'),
        v.len() > 0 ==> !is_space(v[0]) && !is_space(v.last()),
    ensures
        map_entry("# advice_map: "@ + v) is None,
{
    let name = "advice_map:"@;
    reveal_strlit("advice_map:");
    reveal_strlit("# advice_map: ");
    reveal_strlit("# ");
    reveal_strlit(" ");
    assert("# advice_map: "@ + v =~= declaration_line(name, v));
    lemma_declares_text(name, v);
    lemma_cut_at(v, Seq::empty(), ';');
    assert(v + Seq::<char>::empty() =~= v);
}

} // verus!
