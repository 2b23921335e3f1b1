//! Which procedure invokes which, by the places of the words in a source.

use vstd::prelude::*;

use crate::number::decimal;
use crate::number::lemma_numeral_digits;
use crate::number::lemma_numeral_reads_back;
use crate::number::parsed;
use crate::text::before;
use crate::text::cut;
use crate::text::last_segment;
use crate::text::lemma_cut;
use crate::text::lemma_cut_at;
use crate::text::lemma_one_piece;
use crate::text::lines_of;
use crate::text::split_on;
use crate::text::trimmed;
use crate::text::words_of;
use crate::tracer::call_graph::call_graph;
use crate::tracer::call_graph::call_kinds;
use crate::tracer::call_graph::calls;
use crate::tracer::call_graph::declared_locals;
use crate::tracer::call_graph::invocation;
use crate::tracer::call_graph::kinds_in;
use crate::tracer::call_graph::lemma_graph_matches_kinds;
use crate::tracer::call_graph::locals_in;
use crate::tracer::call_graph::proc_locals;
use crate::tracer::call_graph::token_view;
use crate::tracer::call_graph::tokens_in;
use crate::tracer::call_graph::BodyView;
use crate::tracer::call_graph::CallKind;
use crate::tracer::call_graph::TokenView;

verus! {

/// The word is the head of a procedure of that name, or of the body of the
/// program.
pub open spec fn heads(token: Seq<char>, name: Seq<char>) -> bool {
    ||| token == "begin"@ && name == "#main"@
    ||| !name.contains('.') && exists|rest: Seq<char>| #[trigger]
        ends_name(rest) && (token == "proc."@ + name + rest || token == "export."@ + name + rest)
}

/// What may follow a procedure's name: nothing, or a period and anything.
pub open spec fn ends_name(rest: Seq<char>) -> bool {
    rest.len() > 0 ==> rest[0] == '.'
}

/// The word is the head of some procedure.
pub open spec fn heads_any(token: Seq<char>) -> bool {
    exists|name: Seq<char>| heads(token, name)
}

/// The word opens a block inside a body.
pub open spec fn opens_block(token: Seq<char>) -> bool {
    ||| "if."@.is_prefix_of(token)
    ||| "while."@.is_prefix_of(token)
    ||| "repeat."@.is_prefix_of(token)
}

/// The word invokes a procedure, by its name or by a path that ends with it.
pub open spec fn invokes(token: Seq<char>, kind: CallKind, callee: Seq<char>) -> bool {
    exists|path: Seq<char>|
        {
            &&& callee == #[trigger] last_segment(path)
            &&& token == match kind {
                CallKind::Exec => "exec."@ + path,
                CallKind::Call => "call."@ + path,
                CallKind::SysCall => "syscall."@ + path,
            }
        }
}

/// How many blocks are opened more than closed by the words between two places.
pub open spec fn depth_between(tokens: Seq<Seq<char>>, i: int, k: int) -> int
    decreases k - i,
{
    if k <= i + 1 {
        0
    } else {
        depth_between(tokens, i, k - 1) + (if opens_block(tokens[k - 1]) {
            1int
        } else if tokens[k - 1] == "end"@ {
            -1
        } else {
            0
        })
    }
}

/// The place `j` lies in the body that the word at `i` is the head of: no other
/// head comes between, and no `end` closes the body before it.
pub open spec fn in_body(tokens: Seq<Seq<char>>, i: int, j: int) -> bool {
    &&& 0 <= i < j
    &&& forall|k: int| i < k < j ==> !heads_any(#[trigger] tokens[k])
    &&& forall|k: int| i < k <= j ==> #[trigger] depth_between(tokens, i, k) >= 0
}

/// The word at `j`, in a body of `caller`, invokes `callee`.
pub open spec fn invoked_at(
    tokens: Seq<Seq<char>>,
    caller: Seq<char>,
    kind: CallKind,
    callee: Seq<char>,
    i: int,
    j: int,
) -> bool {
    &&& 0 <= i < j < tokens.len()
    &&& heads(tokens[i], caller)
    &&& in_body(tokens, i, j)
    &&& invokes(tokens[j], kind, callee)
}

/// A text that begins with a piece and the separator.
proof fn lemma_split_first(a: Seq<char>, b: Seq<char>, sep: char)
    requires
        !a.contains(sep),
    ensures
        split_on(a.push(sep) + b, sep) == seq![a] + split_on(b, sep),
{
    let s = a.push(sep) + b;
    let t = seq![sep] + b;
    assert(s =~= a + t);
    lemma_cut_at(a, t, sep);
    assert(s.take(a.len() as int) =~= a);
    assert(s.skip(a.len() as int + 1) =~= b);
}

/// The first piece of a name and what may follow it.
proof fn lemma_name_piece(name: Seq<char>, rest: Seq<char>)
    requires
        !name.contains('.'),
        ends_name(rest),
    ensures
        split_on(name + rest, '.')[0] == name,
        split_on(name + rest, '.').len() > 0,
        rest.len() > 0 ==> split_on(name + rest, '.') == seq![name] + split_on(rest.skip(1), '.'),
        rest.len() == 0 ==> split_on(name + rest, '.') == seq![name],
{
    if rest.len() == 0 {
        assert(name + rest =~= name);
        lemma_one_piece(name, '.');
    } else {
        assert(name + rest =~= name.push('.') + rest.skip(1));
        lemma_split_first(name, rest.skip(1), '.');
    }
}

proof fn lemma_name_found(s: Seq<char>)
    ensures
        ({
            let name = split_on(s, '.')[0];
            let rest = s.skip(name.len() as int);
            &&& !name.contains('.')
            &&& ends_name(rest)
            &&& s == name + rest
        }),
{
    lemma_cut(s, '.');
    let n = cut(s, '.') as int;
    let name = split_on(s, '.')[0];
    if n >= s.len() {
        assert(name == s);
        assert(s.skip(s.len() as int) =~= Seq::empty());
        assert(s =~= name + s.skip(s.len() as int));
    } else {
        assert(name == s.take(n));
        assert(s =~= name + s.skip(n));
        assert(s.skip(n)[0] == '.');
    }
}

/// The pieces of a head.
proof fn lemma_head_pieces(word: Seq<char>, s: Seq<char>)
    requires
        !word.contains('.'),
    ensures
        split_on(word.push('.') + s, '.').len() >= 2,
        split_on(word.push('.') + s, '.')[1] == split_on(s, '.')[0],
        split_on(word.push('.') + s, '.') == seq![word] + split_on(s, '.'),
{
    lemma_split_first(word, s, '.');
    crate::text::lemma_split(s, '.');
}

#[verifier::rlimit(50)]
proof fn lemma_heads(token: Seq<char>)
    ensures
        forall|name: Seq<char>| #[trigger]
            heads(token, name) <==> token_view(token) == TokenView::Opens(name),
{
    reveal_strlit("proc.");
    reveal_strlit("export.");
    reveal_strlit("begin");
    let word: Seq<char> = if "proc."@.is_prefix_of(token) {
        seq!['p', 'r', 'o', 'c']
    } else {
        seq!['e', 'x', 'p', 'o', 'r', 't']
    };
    assert("proc."@ =~= seq!['p', 'r', 'o', 'c'].push('.'));
    assert("export."@ =~= seq!['e', 'x', 'p', 'o', 'r', 't'].push('.'));
    assert(!word.contains('.'));
    let headed = "proc."@.is_prefix_of(token) || "export."@.is_prefix_of(token);
    if headed {
        let s = token.skip(word.len() as int + 1);
        assert(token =~= word.push('.') + s);
        lemma_head_pieces(word, s);
        lemma_name_found(s);
        let name = split_on(s, '.')[0];
        let rest = s.skip(name.len() as int);
        assert(token =~= word.push('.') + name + rest);
        assert(ends_name(rest));
        assert(heads(token, name));
        assert(token_view(token) == TokenView::Opens(name));
        assert(token != "begin"@) by {
            assert(token[0] == word[0]);
        }
        assert forall|other: Seq<char>| #[trigger] heads(token, other) implies other == name by {
            let r = choose|r: Seq<char>| #[trigger]
                ends_name(r) && (token == "proc."@ + other + r || token == "export."@ + other + r);
            if token == "proc."@ + other + r {
                assert(token[0] == 'p');
            } else {
                assert(token[0] == 'e');
            }
            assert(s =~= other + r);
            lemma_name_piece(other, r);
        }
    } else {
        assert forall|name: Seq<char>| #[trigger] heads(token, name) implies token == "begin"@
            && name == "#main"@ by {
            if !(token == "begin"@ && name == "#main"@) {
                let r = choose|r: Seq<char>| #[trigger]
                    ends_name(r) && (token == "proc."@ + name + r || token == "export."@ + name + r);
                if token == "proc."@ + name + r {
                    assert("proc."@ =~= token.subrange(0, 5));
                } else {
                    assert("export."@ =~= token.subrange(0, 7));
                }
            }
        }
    }
}

proof fn lemma_prefix(p: Seq<char>, token: Seq<char>)
    requires
        p.is_prefix_of(token),
    ensures
        token == p + token.skip(p.len() as int),
        forall|i: int| 0 <= i < p.len() ==> #[trigger] p[i] == token[i],
{
    assert(token =~= p + token.skip(p.len() as int));
    assert forall|i: int| 0 <= i < p.len() implies #[trigger] p[i] == token[i] by {
        assert(token.subrange(0, p.len() as int)[i] == token[i]);
    }
}

proof fn lemma_is_prefix(p: Seq<char>, rest: Seq<char>)
    ensures
        p.is_prefix_of(p + rest),
        (p + rest).skip(p.len() as int) == rest,
{
    assert(p =~= (p + rest).subrange(0, p.len() as int));
    assert((p + rest).skip(p.len() as int) =~= rest);
}

proof fn lemma_invocation(token: Seq<char>)
    ensures
        forall|kind: CallKind, callee: Seq<char>| #[trigger]
            invokes(token, kind, callee) <==> invocation(token) == Some((kind, callee)),
{
    reveal_strlit("syscall.");
    reveal_strlit("call.");
    reveal_strlit("exec.");
    assert forall|kind: CallKind, callee: Seq<char>| #[trigger]
        invokes(token, kind, callee) implies invocation(token) == Some((kind, callee)) by {
        let path = choose|path: Seq<char>|
            {
                &&& callee == #[trigger] last_segment(path)
                &&& token == match kind {
                    CallKind::Exec => "exec."@ + path,
                    CallKind::Call => "call."@ + path,
                    CallKind::SysCall => "syscall."@ + path,
                }
            };
        lemma_is_prefix("exec."@, path);
        lemma_is_prefix("call."@, path);
        lemma_is_prefix("syscall."@, path);
        if "syscall."@.is_prefix_of(token) {
            lemma_prefix("syscall."@, token);
            assert("syscall."@[0] == token[0]);
        }
        if "call."@.is_prefix_of(token) {
            lemma_prefix("call."@, token);
            assert("call."@[0] == token[0]);
        }
    }
    assert forall|kind: CallKind, callee: Seq<char>| invocation(token) == Some(
        (kind, callee),
    ) implies #[trigger] invokes(token, kind, callee) by {
        if "syscall."@.is_prefix_of(token) {
            lemma_prefix("syscall."@, token);
            assert(callee == last_segment(token.skip(8)));
        } else if "call."@.is_prefix_of(token) {
            lemma_prefix("call."@, token);
            assert(callee == last_segment(token.skip(5)));
        } else {
            lemma_prefix("exec."@, token);
            assert(callee == last_segment(token.skip(5)));
        }
    }
}

/// What a word is for the call graph.
#[verifier::rlimit(50)]
proof fn lemma_classes(token: Seq<char>)
    ensures
        heads_any(token) <==> token_view(token) is Opens,
        token_view(token) is Block <==> opens_block(token),
        token_view(token) is Closes <==> token == "end"@,
        forall|kind: CallKind, callee: Seq<char>| #[trigger]
            invokes(token, kind, callee) <==> token_view(token) == TokenView::Invokes(kind, callee),
{
    lemma_heads(token);
    lemma_invocation(token);
    if token_view(token) is Opens {
        assert(heads(token, token_view(token)->Opens_0));
    }
    reveal_strlit("proc.");
    reveal_strlit("export.");
    reveal_strlit("begin");
    reveal_strlit("end");
    reveal_strlit("if.");
    reveal_strlit("while.");
    reveal_strlit("repeat.");
    reveal_strlit("syscall.");
    reveal_strlit("call.");
    reveal_strlit("exec.");
    let first = token[0];
    if "proc."@.is_prefix_of(token) {
        lemma_prefix("proc."@, token);
        assert("proc."@[0] == first);
        assert(first == 'p');
        lemma_head_seen(token);
    }
    if "export."@.is_prefix_of(token) {
        lemma_prefix("export."@, token);
        assert("export."@[0] == first && "export."@[2] == token[2]);
        assert(first == 'e' && token[2] == 'p');
        lemma_head_seen(token);
    }
    if "if."@.is_prefix_of(token) {
        lemma_prefix("if."@, token);
        assert("if."@[0] == first);
        assert(first == 'i');
    }
    if "while."@.is_prefix_of(token) {
        lemma_prefix("while."@, token);
        assert("while."@[0] == first);
        assert(first == 'w');
    }
    if "repeat."@.is_prefix_of(token) {
        lemma_prefix("repeat."@, token);
        assert("repeat."@[0] == first);
        assert(first == 'r');
    }
    if "syscall."@.is_prefix_of(token) {
        lemma_prefix("syscall."@, token);
        assert("syscall."@[0] == first);
        assert(first == 's');
    }
    if "call."@.is_prefix_of(token) {
        lemma_prefix("call."@, token);
        assert("call."@[0] == first);
        assert(first == 'c');
    }
    if "exec."@.is_prefix_of(token) {
        lemma_prefix("exec."@, token);
        assert("exec."@[0] == first && "exec."@[2] == token[2]);
        assert(first == 'e' && token[2] == 'e');
    }
    if token == "end"@ {
        assert(first == 'e' && token[2] == 'd');
    }
    if token == "begin"@ {
        assert(first == 'b');
    }
}

proof fn lemma_head_seen(token: Seq<char>)
    requires
        "proc."@.is_prefix_of(token) || "export."@.is_prefix_of(token),
    ensures
        token_view(token) is Opens,
{
    reveal_strlit("proc.");
    reveal_strlit("export.");
    let word: Seq<char> = if "proc."@.is_prefix_of(token) {
        seq!['p', 'r', 'o', 'c']
    } else {
        seq!['e', 'x', 'p', 'o', 'r', 't']
    };
    assert("proc."@ =~= seq!['p', 'r', 'o', 'c'].push('.'));
    assert("export."@ =~= seq!['e', 'x', 'p', 'o', 'r', 't'].push('.'));
    assert(!word.contains('.'));
    let rest = token.skip(word.len() as int + 1);
    assert(token =~= word.push('.') + rest);
    lemma_head_pieces(word, rest);
}

proof fn lemma_depth_shorter(tokens: Seq<Seq<char>>, i: int, k: int)
    requires
        0 <= i,
        k < tokens.len(),
    ensures
        depth_between(tokens.drop_last(), i, k) == depth_between(tokens, i, k),
    decreases k - i,
{
    if k > i + 1 {
        lemma_depth_shorter(tokens, i, k - 1);
        assert(tokens.drop_last()[k - 1] == tokens[k - 1]);
    }
}

proof fn lemma_in_body_shorter(tokens: Seq<Seq<char>>, i: int, j: int)
    requires
        0 <= i < j < tokens.len(),
    ensures
        in_body(tokens.drop_last(), i, j) <==> in_body(tokens, i, j),
{
    let shorter = tokens.drop_last();
    assert forall|k: int| i < k <= j implies depth_between(shorter, i, k) == #[trigger] depth_between(
        tokens,
        i,
        k,
    ) by {
        lemma_depth_shorter(tokens, i, k);
    }
    if in_body(shorter, i, j) {
        assert forall|k: int| i < k < j implies !heads_any(#[trigger] tokens[k]) by {
            assert(!heads_any(shorter[k]));
        }
        assert forall|k: int| i < k <= j implies #[trigger] depth_between(tokens, i, k) >= 0 by {
            assert(depth_between(shorter, i, k) >= 0);
        }
    }
    if in_body(tokens, i, j) {
        assert forall|k: int| i < k < j implies !heads_any(#[trigger] shorter[k]) by {
            assert(!heads_any(tokens[k]));
        }
        assert forall|k: int| i < k <= j implies #[trigger] depth_between(shorter, i, k) >= 0 by {
            assert(depth_between(tokens, i, k) >= 0);
        }
    }
}

/// The body that is open behind its head.
proof fn lemma_body_held(tokens: Seq<Seq<char>>, i: int, name: Seq<char>)
    requires
        0 <= i < tokens.len(),
        heads(tokens[i], name),
        in_body(tokens, i, tokens.len() as int),
    ensures
        kinds_in(tokens).body == Some(
            BodyView { name, depth: depth_between(tokens, i, tokens.len() as int) as nat },
        ),
    decreases tokens.len(),
{
    let n = tokens.len() as int;
    let last = tokens[n - 1];
    lemma_heads(last);
    lemma_classes(last);
    if i == n - 1 {
        assert(token_view(last) == TokenView::Opens(name));
    } else {
        let shorter = tokens.drop_last();
        assert(in_body(tokens, i, n - 1)) by {
            assert forall|k: int| i < k < n - 1 implies !heads_any(#[trigger] tokens[k]) by {}
            assert forall|k: int| i < k <= n - 1 implies #[trigger] depth_between(tokens, i, k)
                >= 0 by {}
        }
        lemma_in_body_shorter(tokens, i, n - 1);
        lemma_body_held(shorter, i, name);
        lemma_depth_shorter(tokens, i, n - 1);
        assert(!heads_any(tokens[n - 1]));
        assert(depth_between(tokens, i, n) >= 0);
        assert(depth_between(tokens, i, n - 1) >= 0);
    }
}

/// An open body has a head.
proof fn lemma_body_found(tokens: Seq<Seq<char>>) -> (i: int)
    requires
        kinds_in(tokens).body is Some,
    ensures
        0 <= i < tokens.len(),
        heads(tokens[i], kinds_in(tokens).body->0.name),
        in_body(tokens, i, tokens.len() as int),
    decreases tokens.len(),
{
    let n = tokens.len() as int;
    let last = tokens[n - 1];
    lemma_heads(last);
    lemma_classes(last);
    if token_view(last) is Opens {
        assert(heads(last, token_view(last)->Opens_0));
        assert forall|k: int| n - 1 < k <= n implies #[trigger] depth_between(tokens, n - 1, k)
            >= 0 by {}
        n - 1
    } else {
        let shorter = tokens.drop_last();
        let i = lemma_body_found(shorter);
        lemma_body_held(shorter, i, kinds_in(shorter).body->0.name);
        lemma_in_body_shorter(tokens, i, n - 1);
        lemma_depth_shorter(tokens, i, n - 1);
        assert forall|k: int| i < k < n implies !heads_any(#[trigger] tokens[k]) by {}
        assert(depth_between(tokens, i, n - 1) >= 0);
        assert(depth_between(tokens, i, n) >= 0);
        assert forall|k: int| i < k <= n implies #[trigger] depth_between(tokens, i, k) >= 0 by {
            if k < n {
                assert(k <= n - 1);
            }
        }
        i
    }
}

/// Whether an earlier word invokes a procedure does not depend on the last one.
proof fn lemma_invoked_shorter(
    tokens: Seq<Seq<char>>,
    caller: Seq<char>,
    kind: CallKind,
    callee: Seq<char>,
    i: int,
    j: int,
)
    requires
        j < tokens.len() - 1,
    ensures
        invoked_at(tokens, caller, kind, callee, i, j) <==> invoked_at(
            tokens.drop_last(),
            caller,
            kind,
            callee,
            i,
            j,
        ),
{
    if 0 <= i < j {
        lemma_in_body_shorter(tokens, i, j);
    }
}

/// The last word invokes a procedure exactly where a body is open.
proof fn lemma_invoked_last(
    tokens: Seq<Seq<char>>,
    caller: Seq<char>,
    kind: CallKind,
    callee: Seq<char>,
    n: int,
)
    requires
        tokens.len() > 0,
        n == tokens.len() - 1,
    ensures
        (exists|i: int| #[trigger] invoked_at(tokens, caller, kind, callee, i, n)) <==> {
            &&& kinds_in(tokens.drop_last()).body is Some
            &&& kinds_in(tokens.drop_last()).body->0.name == caller
            &&& token_view(tokens.last()) == TokenView::Invokes(kind, callee)
        },
{
    let shorter = tokens.drop_last();
    lemma_classes(tokens.last());
    if exists|i: int| invoked_at(tokens, caller, kind, callee, i, n) {
        let i = choose|i: int| invoked_at(tokens, caller, kind, callee, i, n);
        lemma_in_body_shorter(tokens, i, n);
        assert(shorter[i] == tokens[i]);
        lemma_body_held(shorter, i, caller);
        assert(invokes(tokens.last(), kind, callee));
    }
    if kinds_in(shorter).body is Some && kinds_in(shorter).body->0.name == caller && token_view(
        tokens.last(),
    ) == TokenView::Invokes(kind, callee) {
        let i = lemma_body_found(shorter);
        lemma_in_body_shorter(tokens, i, n);
        assert(invokes(tokens.last(), kind, callee));
        assert(invoked_at(tokens, caller, kind, callee, i, n));
    }
}

/// The kind of a call, by the last word that invokes the callee in a body of the
/// caller.
proof fn lemma_kind_known(
    tokens: Seq<Seq<char>>,
    caller: Seq<char>,
    kind: CallKind,
    callee: Seq<char>,
    i: int,
    j: int,
)
    requires
        invoked_at(tokens, caller, kind, callee, i, j),
        forall|other: CallKind, h: int, l: int|
            invoked_at(tokens, caller, other, callee, h, l) ==> l <= j,
    ensures
        kinds_in(tokens).calls.contains_key(caller),
        kinds_in(tokens).calls[caller].contains_key(callee),
        kinds_in(tokens).calls[caller][callee] == kind,
    decreases tokens.len(),
{
    let n = tokens.len() - 1;
    let shorter = tokens.drop_last();
    if j == n {
        lemma_invoked_last(tokens, caller, kind, callee, n);
    } else {
        lemma_invoked_shorter(tokens, caller, kind, callee, i, j);
        assert forall|other: CallKind, h: int, l: int|
            invoked_at(shorter, caller, other, callee, h, l) implies l <= j by {
            lemma_invoked_shorter(tokens, caller, other, callee, h, l);
        }
        lemma_kind_known(shorter, caller, kind, callee, i, j);
        assert forall|other: CallKind| !(kinds_in(shorter).body is Some && kinds_in(
            shorter,
        ).body->0.name == caller && #[trigger] token_view(tokens.last()) == TokenView::Invokes(
            other,
            callee,
        )) by {
            lemma_invoked_last(tokens, caller, other, callee, n);
        }
    }
}

/// A known call is written somewhere.
proof fn lemma_kind_written(tokens: Seq<Seq<char>>, caller: Seq<char>, callee: Seq<char>)
    requires
        kinds_in(tokens).calls.contains_key(caller),
        kinds_in(tokens).calls[caller].contains_key(callee),
    ensures
        exists|kind: CallKind, i: int, j: int| invoked_at(tokens, caller, kind, callee, i, j),
    decreases tokens.len(),
{
    let shorter = tokens.drop_last();
    let state = kinds_in(shorter);
    if state.calls.contains_key(caller) && state.calls[caller].contains_key(callee) {
        lemma_kind_written(shorter, caller, callee);
        let (kind, i, j) = choose|kind: CallKind, i: int, j: int|
            invoked_at(shorter, caller, kind, callee, i, j);
        lemma_invoked_shorter(tokens, caller, kind, callee, i, j);
        assert(invoked_at(tokens, caller, kind, callee, i, j));
    } else {
        lemma_body_named(shorter);
        let token = token_view(tokens.last());
        assert(token is Invokes);
        let kind = token->Invokes_0;
        assert(token == TokenView::Invokes(kind, callee));
        let n = tokens.len() - 1;
        lemma_invoked_last(tokens, caller, kind, callee, n);
        let i = choose|i: int| invoked_at(tokens, caller, kind, callee, i, n);
        assert(invoked_at(tokens, caller, kind, callee, i, n));
    }
}

/// The open body has an entry.
proof fn lemma_body_named(tokens: Seq<Seq<char>>)
    ensures
        kinds_in(tokens).body is Some ==> kinds_in(tokens).calls.contains_key(
            kinds_in(tokens).body->0.name,
        ),
    decreases tokens.len(),
{
    if tokens.len() > 0 {
        lemma_body_named(tokens.drop_last());
    }
}

/// The words of a source.
pub open spec fn source_words(source: Seq<char>) -> Seq<Seq<char>> {
    tokens_in(lines_of(source))
}

/// A procedure invokes another exactly if a word in one of its bodies does, by
/// `exec`, `call` or `syscall`, at any depth of blocks.
pub proof fn lemma_calls_written(source: Seq<char>, caller: Seq<char>, callee: Seq<char>)
    ensures
        calls(call_graph(source), caller, callee) <==> exists|kind: CallKind, i: int, j: int|
            invoked_at(source_words(source), caller, kind, callee, i, j),
{
    let tokens = source_words(source);
    lemma_graph_matches_kinds(source);
    let kinds = call_kinds(source);
    if calls(call_graph(source), caller, callee) {
        lemma_kind_written(tokens, caller, callee);
    }
    if exists|kind: CallKind, i: int, j: int| invoked_at(tokens, caller, kind, callee, i, j) {
        let (kind, i, j) = choose|kind: CallKind, i: int, j: int|
            invoked_at(tokens, caller, kind, callee, i, j);
        lemma_last_invocation(tokens, caller, kind, callee, i, j);
        let (k, h, l) = choose|k: CallKind, h: int, l: int|
            invoked_at(tokens, caller, k, callee, h, l) && forall|other: CallKind, a: int, b: int|
                invoked_at(tokens, caller, other, callee, a, b) ==> b <= l;
        lemma_kind_known(tokens, caller, k, callee, h, l);
        assert(kinds[caller].dom().contains(callee));
    }
}

/// Among the places where a procedure is invoked there is a last one.
proof fn lemma_last_invocation(
    tokens: Seq<Seq<char>>,
    caller: Seq<char>,
    kind: CallKind,
    callee: Seq<char>,
    i: int,
    j: int,
)
    requires
        invoked_at(tokens, caller, kind, callee, i, j),
    ensures
        exists|k: CallKind, h: int, l: int|
            #[trigger] invoked_at(tokens, caller, k, callee, h, l) && forall|
                other: CallKind,
                a: int,
                b: int,
            | invoked_at(tokens, caller, other, callee, a, b) ==> b <= l,
    decreases tokens.len() - j,
{
    if exists|other: CallKind, a: int, b: int|
        invoked_at(tokens, caller, other, callee, a, b) && b > j {
        let (other, a, b) = choose|other: CallKind, a: int, b: int|
            invoked_at(tokens, caller, other, callee, a, b) && b > j;
        lemma_last_invocation(tokens, caller, other, callee, a, b);
    } else {
        assert(invoked_at(tokens, caller, kind, callee, i, j));
    }
}

/// The kind of a call is that of the last word that invokes the callee in a
/// body of the caller.
pub proof fn lemma_call_kind(
    source: Seq<char>,
    caller: Seq<char>,
    kind: CallKind,
    callee: Seq<char>,
    i: int,
    j: int,
)
    requires
        invoked_at(source_words(source), caller, kind, callee, i, j),
        forall|other: CallKind, h: int, l: int|
            invoked_at(source_words(source), caller, other, callee, h, l) ==> l <= j,
    ensures
        call_kinds(source).contains_key(caller),
        call_kinds(source)[caller].contains_key(callee),
        call_kinds(source)[caller][callee] == kind,
{
    lemma_kind_known(source_words(source), caller, kind, callee, i, j);
}

/// The words of a source are those of its code, line by line: a `#` and what
/// follows it on the line has none.
pub proof fn lemma_source_words(rows: Seq<Seq<char>>, code: Seq<char>, comment: Seq<char>)
    requires
        !code.contains('#'),
    ensures
        tokens_in(Seq::empty()) == Seq::<Seq<char>>::empty(),
        tokens_in(rows.push(code)) == tokens_in(rows) + words_of(code),
        tokens_in(rows.push(code.push('#') + comment)) == tokens_in(rows) + words_of(code),
{
    assert(rows.push(code).drop_last() =~= rows);
    let line = code.push('#') + comment;
    assert(rows.push(line).drop_last() =~= rows);
    lemma_cut_at(code, Seq::empty(), '#');
    assert(code + Seq::<char>::empty() =~= code);
    assert(before(code, '#') =~= code);
    let tail = seq!['#'] + comment;
    assert(line =~= code + tail);
    lemma_cut_at(code, tail, '#');
    assert(before(line, '#') =~= code);
}

/// The line declares a procedure with a number of local slots: `proc` or
/// `export`, the name and the number, with periods between them.
pub open spec fn declares_slots(line: Seq<char>, name: Seq<char>, n: u16) -> bool {
    !name.contains('.') && exists|digits: Seq<char>, rest: Seq<char>|
        {
            &&& #[trigger] ends_name(rest)
            &&& !digits.contains('.')
            &&& #[trigger] parsed(digits, 10, u16::MAX as nat) == Some(n as nat)
            &&& trimmed(line) == "proc."@ + name + "."@ + digits + rest || trimmed(line)
                == "export."@ + name + "."@ + digits + rest
        }
}

proof fn lemma_slots_read(word: Seq<char>, name: Seq<char>, digits: Seq<char>, rest: Seq<char>)
    requires
        !word.contains('.'),
        !name.contains('.'),
        !digits.contains('.'),
        ends_name(rest),
    ensures
        ({
            let parts = split_on(word.push('.') + name + "."@ + digits + rest, '.');
            &&& parts.len() >= 3
            &&& parts[1] == name
            &&& parts[2] == digits
        }),
{
    reveal_strlit(".");
    let s = word.push('.') + name + "."@ + digits + rest;
    let tail = digits + rest;
    let inner = name.push('.') + tail;
    assert(s =~= word.push('.') + inner);
    lemma_split_first(word, inner, '.');
    lemma_split_first(name, tail, '.');
    lemma_name_piece(digits, rest);
    assert(split_on(s, '.')[1] == split_on(inner, '.')[0]);
    assert(split_on(s, '.')[2] == split_on(inner, '.')[1]);
    assert(split_on(inner, '.')[1] == split_on(tail, '.')[0]);
}

#[verifier::rlimit(50)]
proof fn lemma_slots_seen(line: Seq<char>, name: Seq<char>, n: u16)
    requires
        declares_slots(line, name, n),
    ensures
        declared_locals(line) == Some((name, n)),
{
    reveal_strlit("proc.");
    reveal_strlit("export.");
    let proc_word: Seq<char> = seq!['p', 'r', 'o', 'c'];
    let export_word: Seq<char> = seq!['e', 'x', 'p', 'o', 'r', 't'];
    assert("proc."@ =~= proc_word.push('.'));
    assert("export."@ =~= export_word.push('.'));
    assert(!proc_word.contains('.'));
    assert(!export_word.contains('.'));
    let code = trimmed(line);
    let (digits, rest) = choose|digits: Seq<char>, rest: Seq<char>|
        {
            &&& #[trigger] ends_name(rest)
            &&& !digits.contains('.')
            &&& #[trigger] parsed(digits, 10, u16::MAX as nat) == Some(n as nat)
            &&& code == "proc."@ + name + "."@ + digits + rest || code == "export."@ + name + "."@
                + digits + rest
        };
    if code == "proc."@ + name + "."@ + digits + rest {
        lemma_slots_read(proc_word, name, digits, rest);
        assert("proc."@ =~= code.subrange(0, 5));
    } else {
        lemma_slots_read(export_word, name, digits, rest);
        assert("export."@ =~= code.subrange(0, 7));
    }
}

#[verifier::rlimit(50)]
proof fn lemma_slots_meant(line: Seq<char>, name: Seq<char>, n: u16)
    requires
        declared_locals(line) == Some((name, n)),
    ensures
        declares_slots(line, name, n),
{
    reveal_strlit("proc.");
    reveal_strlit("export.");
    reveal_strlit(".");
    let proc_word: Seq<char> = seq!['p', 'r', 'o', 'c'];
    let export_word: Seq<char> = seq!['e', 'x', 'p', 'o', 'r', 't'];
    assert("proc."@ =~= proc_word.push('.'));
    assert("export."@ =~= export_word.push('.'));
    assert(!proc_word.contains('.'));
    assert(!export_word.contains('.'));
    let code = trimmed(line);
    let word = if "proc."@.is_prefix_of(code) {
        proc_word
    } else {
        export_word
    };
    let s = code.skip(word.len() as int + 1);
    assert(code =~= word.push('.') + s);
    lemma_head_pieces(word, s);
    lemma_name_found(s);
    let parts = split_on(code, '.');
    assert(parts[1] == name);
    let behind = s.skip(name.len() as int);
    lemma_name_piece(name, behind);
    assert(behind.len() > 0);
    let t = behind.skip(1);
    assert(parts[2] == split_on(s, '.')[1]);
    assert(split_on(s, '.')[1] == split_on(t, '.')[0]);
    lemma_name_found(t);
    let digits = split_on(t, '.')[0];
    let rest = t.skip(digits.len() as int);
    assert(parts[2] == digits);
    assert(code =~= word.push('.') + name + "."@ + digits + rest);
    assert(ends_name(rest));
    assert(parsed(digits, 10, u16::MAX as nat) == Some(n as nat));
}

#[verifier::rlimit(50)]
proof fn lemma_line_slots(line: Seq<char>)
    ensures
        forall|name: Seq<char>, n: u16| #[trigger]
            declares_slots(line, name, n) <==> declared_locals(line) == Some((name, n)),
{
    assert forall|name: Seq<char>, n: u16| #[trigger]
        declares_slots(line, name, n) <==> declared_locals(line) == Some((name, n)) by {
        if declares_slots(line, name, n) {
            lemma_slots_seen(line, name, n);
        }
        if declared_locals(line) == Some((name, n)) {
            lemma_slots_meant(line, name, n);
        }
    }
}

#[verifier::rlimit(50)]
proof fn lemma_slots_last(rows: Seq<Seq<char>>, name: Seq<char>)
    ensures
        locals_in(rows).locals.contains_key(name) ==> exists|i: int|
            0 <= i < rows.len() && declares_slots(
                #[trigger] rows[i],
                name,
                locals_in(rows).locals[name],
            ) && forall|k: int, m: u16|
                i < k < rows.len() ==> !(#[trigger] declares_slots(rows[k], name, m)),
        !locals_in(rows).locals.contains_key(name) ==> forall|i: int, m: u16|
            0 <= i < rows.len() ==> !(#[trigger] declares_slots(rows[i], name, m)),
    decreases rows.len(),
{
    if rows.len() > 0 {
        let less = rows.drop_last();
        let last = rows.len() - 1;
        lemma_slots_last(less, name);
        lemma_line_slots(rows[last]);
        let now = locals_in(rows).locals;
        let earlier = locals_in(less).locals;
        if exists|m: u16| declares_slots(rows[last], name, m) {
            let m = choose|m: u16| declares_slots(rows[last], name, m);
            assert(declared_locals(rows.last()) == Some((name, m)));
            assert(now[name] == m);
            assert(declares_slots(rows[last], name, now[name]));
        } else {
            assert(forall|m: u16| !(#[trigger] declares_slots(rows[last], name, m)));
            assert(now.contains_key(name) == earlier.contains_key(name)) by {
                if let Some((other, m)) = declared_locals(rows.last()) {
                    assert(declares_slots(rows[last], other, m));
                    assert(other != name);
                }
            }
            if now.contains_key(name) {
                assert(now[name] == earlier[name]) by {
                    if let Some((other, m)) = declared_locals(rows.last()) {
                        assert(declares_slots(rows[last], other, m));
                        assert(other != name);
                    }
                }
                let i = choose|i: int|
                    0 <= i < less.len() && declares_slots(#[trigger] less[i], name, earlier[name])
                        && forall|k: int, m: u16|
                        i < k < less.len() ==> !(#[trigger] declares_slots(less[k], name, m));
                assert(declares_slots(rows[i], name, now[name]));
                assert forall|k: int, m: u16| i < k < rows.len() implies !(
                #[trigger] declares_slots(rows[k], name, m)) by {
                    if k < last {
                        assert(!declares_slots(less[k], name, m));
                    }
                }
            } else {
                assert forall|i: int, m: u16| 0 <= i < rows.len() implies !(
                #[trigger] declares_slots(rows[i], name, m)) by {
                    if i < last {
                        assert(!declares_slots(less[i], name, m));
                    }
                }
            }
        }
    }
}

/// The number of local slots of a procedure is the one on the last line that
/// declares it, and a procedure that no line declares has none.
pub proof fn lemma_slots_declared(source: Seq<char>, name: Seq<char>)
    ensures
        ({
            let rows = lines_of(source);
            let locals = proc_locals(source).locals;
            &&& locals.contains_key(name) ==> exists|i: int|
                0 <= i < rows.len() && declares_slots(#[trigger] rows[i], name, locals[name])
                    && forall|k: int, m: u16|
                    i < k < rows.len() ==> !(#[trigger] declares_slots(rows[k], name, m))
            &&& !locals.contains_key(name) ==> forall|i: int, m: u16|
                0 <= i < rows.len() ==> !(#[trigger] declares_slots(rows[i], name, m))
        }),
{
    lemma_slots_last(lines_of(source), name);
}

/// A declaration with any number of slots that a procedure can have is read.
pub proof fn lemma_slots_written(name: Seq<char>, n: u16)
    requires
        !name.contains('.'),
    ensures
        declares_slots("proc."@ + name + "."@ + decimal(n as int), name, n),
        declares_slots("export."@ + name + "."@ + decimal(n as int), name, n),
{
    reveal_strlit("proc.");
    reveal_strlit("export.");
    reveal_strlit(".");
    let digits = decimal(n as int);
    lemma_numeral_reads_back(n as nat, 10, u16::MAX as nat);
    assert forall|i: int| 0 <= i < digits.len() implies digits[i] != '.' && !crate::text::is_space(
        digits[i],
    ) by {
        lemma_numeral_digits(n as nat, 10, i);
    }
    let none = Seq::<char>::empty();
    assert(ends_name(none));
    let a = "proc."@ + name + "."@ + digits;
    let b = "export."@ + name + "."@ + digits;
    assert(a.last() == digits.last() && b.last() == digits.last());
    crate::text_laws::lemma_trims(none, a, none);
    crate::text_laws::lemma_trims(none, b, none);
    assert(none + a + none =~= a);
    assert(none + b + none =~= b);
    assert(a =~= a + none);
    assert(b =~= b + none);
}

} // verus!
