//! Who calls whom, as the source of a program says.

use vstd::prelude::*;

use crate::number::parse;
use crate::number::parsed;
use crate::table::Table;
use crate::text::before;
use crate::text::chars_of;
use crate::text::is_text;
use crate::text::last_segment;
use crate::text::lines;
use crate::text::lines_of;
use crate::text::option_text;
use crate::text::pieces;
use crate::text::same_text;
use crate::text::split;
use crate::text::split_on;
use crate::text::starts_with;
use crate::text::string_of;
use crate::text::strip_prefix;
use crate::text::tail_segment;
use crate::text::take_before;
use crate::text::texts;
use crate::text::trim;
use crate::text::trimmed;
use crate::text::words;
use crate::text::words_of;

verus! {

/// How a procedure is invoked.
#[derive(Debug, Copy, Clone, PartialEq, Eq, Hash, Structural)]
pub enum CallKind {
    /// `exec.X`: expanded in place, in the caller's memory context.
    Exec,
    /// `call.X`: a call into a fresh memory context.
    Call,
    /// `syscall.X`: a call of a kernel procedure.
    SysCall,
}

impl CallKind {
    /// The label of the kind.
    pub open spec fn tag(self) -> Seq<char> {
        match self {
            CallKind::Exec => "Exec"@,
            CallKind::Call => "Call"@,
            CallKind::SysCall => "SysCall"@,
        }
    }

    /// The label of the kind, as text.
    pub fn as_tag(&self) -> (r: &'static str)
        ensures
            r@ == self.tag(),
    {
        match self {
            CallKind::Exec => "Exec",
            CallKind::Call => "Call",
            CallKind::SysCall => "SysCall",
        }
    }
}

/// The invocation that a token writes: its kind and the last segment of the
/// procedure's path.
pub open spec fn invocation(token: Seq<char>) -> Option<(CallKind, Seq<char>)> {
    if "syscall."@.is_prefix_of(token) {
        Some((CallKind::SysCall, last_segment(token.skip("syscall."@.len() as int))))
    } else if "call."@.is_prefix_of(token) {
        Some((CallKind::Call, last_segment(token.skip("call."@.len() as int))))
    } else if "exec."@.is_prefix_of(token) {
        Some((CallKind::Exec, last_segment(token.skip("exec."@.len() as int))))
    } else {
        None
    }
}

/// What a token of source means for the call graph.
pub enum TokenView {
    /// The head of a procedure, or `begin` under the name `#main`.
    Opens(Seq<char>),
    /// The head of a block inside a body: `if`, `while` or `repeat`.
    Block,
    /// `end`.
    Closes,
    /// An invocation.
    Invokes(CallKind, Seq<char>),
    /// Anything else.
    Other,
}

/// Reads a token of source.
pub open spec fn token_view(token: Seq<char>) -> TokenView {
    if "proc."@.is_prefix_of(token) || "export."@.is_prefix_of(token) {
        let parts = split_on(token, '.');
        if parts.len() >= 2 {
            TokenView::Opens(parts[1])
        } else {
            TokenView::Other
        }
    } else if token == "begin"@ {
        TokenView::Opens("#main"@)
    } else if "if."@.is_prefix_of(token) || "while."@.is_prefix_of(token)
        || "repeat."@.is_prefix_of(token) {
        TokenView::Block
    } else if token == "end"@ {
        TokenView::Closes
    } else {
        match invocation(token) {
            Some((kind, callee)) => TokenView::Invokes(kind, callee),
            None => TokenView::Other,
        }
    }
}

/// The tokens of lines of source, without the comments.
pub open spec fn tokens_in(lines: Seq<Seq<char>>) -> Seq<Seq<char>>
    decreases lines.len(),
{
    if lines.len() == 0 {
        seq![]
    } else {
        tokens_in(lines.drop_last()) + words_of(before(lines.last(), '#'))
    }
}

/// The body that is open, and how many blocks are open inside it.
pub struct BodyView {
    pub name: Seq<char>,
    pub depth: nat,
}

/// The open body after a token. An `end` closes the innermost block, or the
/// body where no block is open.
pub open spec fn body_after(body: Option<BodyView>, token: TokenView) -> Option<BodyView> {
    match (token, body) {
        (TokenView::Opens(name), _) => Some(BodyView { name, depth: 0 }),
        (TokenView::Block, Some(b)) => Some(BodyView { name: b.name, depth: b.depth + 1 }),
        (TokenView::Closes, Some(b)) => if b.depth > 0 {
            Some(BodyView { name: b.name, depth: (b.depth - 1) as nat })
        } else {
            None
        },
        _ => body,
    }
}

/// The calls read so far, and the body that is open.
pub struct KindsView {
    pub calls: Map<Seq<char>, Map<Seq<char>, CallKind>>,
    pub body: Option<BodyView>,
}

/// What one more token adds to the calls. The last invocation of a procedure
/// in a body gives its kind there.
pub open spec fn kinds_after(state: KindsView, token: TokenView) -> KindsView {
    KindsView {
        calls: match (token, state.body) {
            (TokenView::Opens(name), _) => if state.calls.contains_key(name) {
                state.calls
            } else {
                state.calls.insert(name, Map::empty())
            },
            (TokenView::Invokes(kind, callee), Some(b)) => state.calls.insert(
                b.name,
                state.calls[b.name].insert(callee, kind),
            ),
            _ => state.calls,
        },
        body: body_after(state.body, token),
    }
}

/// The calls that tokens of source write.
pub open spec fn kinds_in(tokens: Seq<Seq<char>>) -> KindsView
    decreases tokens.len(),
{
    if tokens.len() == 0 {
        KindsView { calls: Map::empty(), body: None }
    } else {
        kinds_after(kinds_in(tokens.drop_last()), token_view(tokens.last()))
    }
}

/// The kind of each call in a source, by caller and callee.
pub open spec fn call_kinds(source: Seq<char>) -> Map<Seq<char>, Map<Seq<char>, CallKind>> {
    kinds_in(tokens_in(lines_of(source))).calls
}

/// The kinds of the calls of a program.
pub struct CallKinds {
    callers: Table<Table<CallKind>>,
}

impl View for CallKinds {
    type V = Map<Seq<char>, Map<Seq<char>, CallKind>>;

    /// The kind of each call, by caller and callee.
    closed spec fn view(&self) -> Map<Seq<char>, Map<Seq<char>, CallKind>> {
        self.callers@.map_values(|callees: Table<CallKind>| callees@)
    }
}

impl CallKinds {
    /// No caller and no callee of a caller stands twice.
    pub closed spec fn wf(&self) -> bool {
        &&& self.callers.wf()
        &&& forall|k: Seq<char>| #[trigger]
            self.callers@.contains_key(k) ==> self.callers@[k].wf()
    }

    /// Tells whether the source has a body of that name.
    pub fn has_caller(&self, caller: &str) -> (r: bool)
        requires
            self.wf(),
        ensures
            r == self@.contains_key(caller@),
    {
        self.callers.position(caller).is_some()
    }

    /// How `caller` invokes `callee`, where it does.
    pub fn kind(&self, caller: &str, callee: &str) -> (r: Option<CallKind>)
        requires
            self.wf(),
        ensures
            match r {
                Some(kind) => self@.contains_key(caller@) && self@[caller@].contains_key(callee@)
                    && self@[caller@][callee@] == kind,
                None => !(self@.contains_key(caller@) && self@[caller@].contains_key(callee@)),
            },
    {
        match self.callers.get(caller) {
            Some(callees) => match callees.get(callee) {
                Some(kind) => Some(*kind),
                None => None,
            },
            None => None,
        }
    }
}

fn read_invocation<'a>(token: &'a [char]) -> (r: Option<(CallKind, &'a [char])>)
    ensures
        match r {
            Some((kind, callee)) => invocation(token@) == Some((kind, callee@)),
            None => invocation(token@) is None,
        },
{
    if let Some(path) = strip_prefix(token, "syscall.") {
        return Some((CallKind::SysCall, tail_segment(path)));
    }
    if let Some(path) = strip_prefix(token, "call.") {
        return Some((CallKind::Call, tail_segment(path)));
    }
    if let Some(path) = strip_prefix(token, "exec.") {
        return Some((CallKind::Exec, tail_segment(path)));
    }
    None
}

fn list_tokens<'a>(rows: &Vec<&'a [char]>) -> (r: Vec<&'a [char]>)
    ensures
        pieces(r@) == tokens_in(pieces(rows@)),
{
    let ghost all = pieces(rows@);
    let mut out: Vec<&'a [char]> = Vec::new();
    let mut i: usize = 0;
    assert(all.take(0) =~= seq![]);
    assert(pieces(out@) =~= seq![]);
    while i < rows.len()
        invariant
            i <= rows.len(),
            all == pieces(rows@),
            pieces(out@) == tokens_in(all.take(i as int)),
        decreases rows.len() - i,
    {
        assert(all.take(i + 1).drop_last() =~= all.take(i as int));
        assert(all.take(i + 1).last() == rows@[i as int]@);
        let more = words(take_before(rows[i], '#'));
        let ghost start = out@;
        let mut j: usize = 0;
        assert(pieces(more@.take(0)) =~= seq![]);
        assert(pieces(out@) =~= pieces(start) + pieces(more@.take(0)));
        while j < more.len()
            invariant
                j <= more.len(),
                pieces(out@) == pieces(start) + pieces(more@.take(j as int)),
            decreases more.len() - j,
        {
            let ghost before = out@;
            out.push(more[j]);
            assert(pieces(out@) =~= pieces(before).push(more@[j as int]@));
            assert(pieces(more@.take(j + 1)) =~= pieces(more@.take(j as int)).push(
                more@[j as int]@,
            ));
            j += 1;
            assert(pieces(out@) =~= pieces(start) + pieces(more@.take(j as int)));
        }
        assert(more@.take(j as int) =~= more@);
        i += 1;
    }
    assert(all.take(i as int) =~= all);
    out
}

/// The calls of a program while its tokens are read. The open body is held by
/// the row of its name and the number of blocks that are open inside it.
struct Reader {
    kinds: CallKinds,
    body: Option<(usize, usize)>,
}

impl Reader {
    spec fn wf(&self) -> bool {
        &&& self.kinds.wf()
        &&& self.body matches Some((i, _)) ==> i < self.kinds.callers.names().len()
    }

    spec fn state(&self) -> KindsView {
        KindsView {
            calls: self.kinds@,
            body: match self.body {
                Some((i, depth)) => Some(
                    BodyView { name: self.kinds.callers.names()[i as int], depth: depth as nat },
                ),
                None => None,
            },
        }
    }

    spec fn depth(&self) -> nat {
        match self.body {
            Some((_, depth)) => depth as nat,
            None => 0,
        }
    }

    fn open(&mut self, name: &str)
        requires
            old(self).wf(),
        ensures
            final(self).wf(),
            final(self).state() == kinds_after(old(self).state(), TokenView::Opens(name@)),
            final(self).depth() == 0,
    {
        let ghost before = *self;
        proof {
            self.kinds.callers.lemma_names();
        }
        match self.kinds.callers.position(name) {
            Some(i) => {
                self.body = Some((i, 0));
            },
            None => {
                let i: usize = self.kinds.callers.len();
                self.kinds.callers.put(name, Table::new());
                self.body = Some((i, 0));
                assert(self.kinds@ =~= before.kinds@.insert(name@, Map::empty()));
                assert(self.kinds.wf()) by {
                    assert forall|k: Seq<char>| #[trigger]
                        self.kinds.callers@.contains_key(k) implies self.kinds.callers@[k].wf() by {
                        if k != name@ {
                            assert(before.kinds.callers@.contains_key(k));
                        }
                    }
                }
            },
        }
    }

    fn invoke(&mut self, kind: CallKind, callee: &str)
        requires
            old(self).wf(),
        ensures
            final(self).wf(),
            final(self).state() == kinds_after(
                old(self).state(),
                TokenView::Invokes(kind, callee@),
            ),
            final(self).depth() == old(self).depth(),
    {
        if let Some((i, _)) = self.body {
            let ghost before = *self;
            let ghost name = self.kinds.callers.names()[i as int];
            proof {
                self.kinds.callers.lemma_names();
                assert(self.kinds.callers.names().contains(name));
                assert(self.kinds.callers@.contains_key(name));
            }
            self.kinds.callers.value_at_mut(i).put(callee, kind);
            assert(self.kinds.wf()) by {
                assert forall|k: Seq<char>| #[trigger]
                    self.kinds.callers@.contains_key(k) implies self.kinds.callers@[k].wf() by {
                    if k != name {
                        assert(before.kinds.callers@.contains_key(k));
                    }
                }
            }
            assert(self.kinds@ =~= before.kinds@.insert(
                name,
                before.kinds@[name].insert(callee@, kind),
            ));
        }
    }

    fn read(&mut self, token: &[char])
        requires
            old(self).wf(),
            old(self).depth() < usize::MAX,
        ensures
            final(self).wf(),
            final(self).state() == kinds_after(old(self).state(), token_view(token@)),
            final(self).depth() <= old(self).depth() + 1,
    {
        if starts_with(token, "proc.") || starts_with(token, "export.") {
            let parts = split(token, '.');
            assert(pieces(parts@).len() == parts@.len());
            if parts.len() >= 2 {
                assert(pieces(parts@)[1] == parts@[1]@);
                self.open(string_of(parts[1]).as_str());
            }
        } else if is_text(token, "begin") {
            self.open("#main");
        } else if starts_with(token, "if.") || starts_with(token, "while.") || starts_with(
            token,
            "repeat.",
        ) {
            if let Some((i, depth)) = self.body {
                self.body = Some((i, depth + 1));
            }
        } else if is_text(token, "end") {
            if let Some((i, depth)) = self.body {
                self.body = if depth > 0 {
                    Some((i, depth - 1))
                } else {
                    None
                };
            }
        } else if let Some((kind, callee)) = read_invocation(token) {
            self.invoke(kind, string_of(callee).as_str());
        }
    }
}

/// The kind of each call that a source writes, by caller and callee. The body
/// of `begin` has the name `#main`; a callee has the last segment of its path.
/// Calls inside nested blocks belong to the body, and so do those behind them.
pub fn parse_call_kinds(source: &str) -> (r: CallKinds)
    ensures
        r.wf(),
        r@ == call_kinds(source@),
{
    let chars = chars_of(source);
    let rows = lines(chars.as_slice());
    let tokens = list_tokens(&rows);
    let mut reader = Reader { kinds: CallKinds { callers: Table::new() }, body: None };
    let ghost all = pieces(tokens@);
    let mut i: usize = 0;
    assert(all.take(0) =~= seq![]);
    assert(reader.kinds@ =~= Map::empty());
    while i < tokens.len()
        invariant
            i <= tokens.len(),
            all == pieces(tokens@),
            reader.wf(),
            reader.depth() <= i,
            reader.state() == kinds_in(all.take(i as int)),
        decreases tokens.len() - i,
    {
        assert(all.take(i + 1).drop_last() =~= all.take(i as int));
        assert(all.take(i + 1).last() == tokens@[i as int]@);
        reader.read(tokens[i]);
        i += 1;
    }
    assert(all.take(i as int) =~= all);
    reader.kinds
}

/// The call graph read so far, and the body that is open.
pub struct GraphView {
    pub callees: Map<Seq<char>, Set<Seq<char>>>,
    pub body: Option<BodyView>,
}

/// What one more token adds to the call graph.
pub open spec fn graph_after(state: GraphView, token: TokenView) -> GraphView {
    GraphView {
        callees: match (token, state.body) {
            (TokenView::Opens(name), _) => if state.callees.contains_key(name) {
                state.callees
            } else {
                state.callees.insert(name, Set::empty())
            },
            (TokenView::Invokes(kind, callee), Some(b)) => state.callees.insert(
                b.name,
                state.callees[b.name].insert(callee),
            ),
            _ => state.callees,
        },
        body: body_after(state.body, token),
    }
}

/// The call graph that tokens of source write.
pub open spec fn graph_in(tokens: Seq<Seq<char>>) -> GraphView
    decreases tokens.len(),
{
    if tokens.len() == 0 {
        GraphView { callees: Map::empty(), body: None }
    } else {
        graph_after(graph_in(tokens.drop_last()), token_view(tokens.last()))
    }
}

/// The procedures that each body of a source invokes.
pub open spec fn call_graph(source: Seq<char>) -> Map<Seq<char>, Set<Seq<char>>> {
    graph_in(tokens_in(lines_of(source))).callees
}

/// The callees of each caller, without the kinds of the calls.
pub open spec fn callees_of(kinds: Map<Seq<char>, Map<Seq<char>, CallKind>>) -> Map<
    Seq<char>,
    Set<Seq<char>>,
> {
    kinds.map_values(|calls: Map<Seq<char>, CallKind>| calls.dom())
}

proof fn lemma_graph_in(tokens: Seq<Seq<char>>)
    ensures
        graph_in(tokens).callees == callees_of(kinds_in(tokens).calls),
        graph_in(tokens).body == kinds_in(tokens).body,
        kinds_in(tokens).body matches Some(b) ==> kinds_in(tokens).calls.contains_key(b.name),
    decreases tokens.len(),
{
    if tokens.len() == 0 {
        assert(graph_in(tokens).callees =~= callees_of(kinds_in(tokens).calls));
    } else {
        lemma_graph_in(tokens.drop_last());
        let before = kinds_in(tokens.drop_last());
        match token_view(tokens.last()) {
            TokenView::Opens(name) => {
                assert(Map::<Seq<char>, CallKind>::empty().dom() =~= Set::empty());
            },
            TokenView::Invokes(kind, callee) => {
                if let Some(b) = before.body {
                    assert(before.calls[b.name].insert(callee, kind).dom()
                        =~= before.calls[b.name].dom().insert(callee));
                }
            },
            _ => {},
        }
        assert(graph_in(tokens).callees =~= callees_of(kinds_in(tokens).calls));
    }
}

/// The call graph and the kinds of the calls agree: a body invokes exactly the
/// procedures that have a kind under it.
pub proof fn lemma_graph_matches_kinds(source: Seq<char>)
    ensures
        call_graph(source) == callees_of(call_kinds(source)),
{
    lemma_graph_in(tokens_in(lines_of(source)));
}

/// Which procedures each body of a program invokes.
pub struct CallGraph {
    kinds: CallKinds,
}

impl View for CallGraph {
    type V = Map<Seq<char>, Set<Seq<char>>>;

    /// The callees of each body.
    closed spec fn view(&self) -> Map<Seq<char>, Set<Seq<char>>> {
        callees_of(self.kinds@)
    }
}

/// `caller` has a body that invokes `callee`.
pub open spec fn calls(graph: Map<Seq<char>, Set<Seq<char>>>, caller: Seq<char>, callee: Seq<char>) -> bool {
    graph.contains_key(caller) && graph[caller].contains(callee)
}

impl CallGraph {
    /// No caller and no callee of a caller stands twice.
    pub closed spec fn wf(&self) -> bool {
        self.kinds.wf()
    }

    /// Tells whether `caller` invokes `callee`.
    pub fn invokes(&self, caller: &str, callee: &str) -> (r: bool)
        requires
            self.wf(),
        ensures
            r == calls(self@, caller@, callee@),
    {
        self.kinds.kind(caller, callee).is_some()
    }
}

/// The procedures that each body of a source invokes by `exec`, `call` or
/// `syscall`.
pub fn parse_call_graph(source: &str) -> (r: CallGraph)
    ensures
        r.wf(),
        r@ == call_graph(source@),
{
    proof {
        lemma_graph_matches_kinds(source@);
    }
    CallGraph { kinds: parse_call_kinds(source) }
}

/// The name of a procedure without the namespace that the VM puts before it.
pub fn bare_proc_name(context_name: &str) -> (r: String)
    ensures
        r@ == last_segment(context_name@),
{
    let chars = chars_of(context_name);
    string_of(tail_segment(chars.as_slice()))
}

/// Procedures with their number of local slots, in the order of their
/// declarations.
pub struct LocalsView {
    pub names: Seq<Seq<char>>,
    pub locals: Map<Seq<char>, u16>,
}

/// What a line declares: `proc.name.N` or `export.name.N`.
pub open spec fn declared_locals(line: Seq<char>) -> Option<(Seq<char>, u16)> {
    let code = trimmed(line);
    let parts = split_on(code, '.');
    if ("proc."@.is_prefix_of(code) || "export."@.is_prefix_of(code)) && parts.len() >= 3 {
        match parsed(parts[2], 10, u16::MAX as nat) {
            Some(n) => Some((parts[1], n as u16)),
            None => None,
        }
    } else {
        None
    }
}

/// The declarations in lines of source; a later one of the same name gives the
/// number of slots.
pub open spec fn locals_in(lines: Seq<Seq<char>>) -> LocalsView
    decreases lines.len(),
{
    if lines.len() == 0 {
        LocalsView { names: seq![], locals: Map::empty() }
    } else {
        let earlier = locals_in(lines.drop_last());
        match declared_locals(lines.last()) {
            Some((name, n)) => LocalsView {
                names: if earlier.locals.contains_key(name) {
                    earlier.names
                } else {
                    earlier.names.push(name)
                },
                locals: earlier.locals.insert(name, n),
            },
            None => earlier,
        }
    }
}

/// The procedures that a source declares with their number of local slots.
pub open spec fn proc_locals(source: Seq<char>) -> LocalsView {
    locals_in(lines_of(source))
}

proof fn lemma_locals_in(lines: Seq<Seq<char>>)
    ensures
        locals_in(lines).names.no_duplicates(),
        forall|n: Seq<char>| #[trigger]
            locals_in(lines).locals.contains_key(n) <==> locals_in(lines).names.contains(n),
    decreases lines.len(),
{
    if lines.len() > 0 {
        lemma_locals_in(lines.drop_last());
        let earlier = locals_in(lines.drop_last());
        let now = locals_in(lines);
        if let Some((name, n)) = declared_locals(lines.last()) {
            if !earlier.locals.contains_key(name) {
                assert(now.names[earlier.names.len() as int] == name);
                assert forall|m: Seq<char>| #[trigger]
                    now.locals.contains_key(m) <==> now.names.contains(m) by {
                    if earlier.names.contains(m) {
                        let i = earlier.names.index_of(m);
                        assert(now.names[i] == m);
                    }
                    if now.names.contains(m) {
                        let i = now.names.index_of(m);
                        if i < earlier.names.len() {
                            assert(earlier.names[i] == m);
                        }
                    }
                }
            }
        }
    }
}

/// The declared procedures are listed once each, and exactly they have a
/// number of local slots.
pub proof fn lemma_declared_names(source: Seq<char>)
    ensures
        proc_locals(source).names.no_duplicates(),
        forall|n: Seq<char>| #[trigger]
            proc_locals(source).locals.contains_key(n) <==> proc_locals(source).names.contains(n),
{
    lemma_locals_in(lines_of(source));
}

fn read_locals<'a>(line: &'a [char]) -> (r: Option<(&'a [char], u16)>)
    ensures
        match r {
            Some((name, n)) => declared_locals(line@) == Some((name@, n)),
            None => declared_locals(line@) is None,
        },
{
    let code = trim(line);
    if !starts_with(code, "proc.") && !starts_with(code, "export.") {
        return None;
    }
    let parts = split(code, '.');
    assert(pieces(parts@).len() == parts@.len());
    if parts.len() < 3 {
        return None;
    }
    assert(pieces(parts@)[1] == parts@[1]@);
    assert(pieces(parts@)[2] == parts@[2]@);
    match parse(parts[2], 10, u16::MAX as u64) {
        Some(n) => Some((parts[1], n as u16)),
        None => None,
    }
}

/// The number of local slots of each procedure that a source declares as
/// `proc.name.N` or `export.name.N`, in the order of the declarations.
pub fn parse_proc_locals(source: &str) -> (r: Table<u16>)
    ensures
        r.wf(),
        r.names() == proc_locals(source@).names,
        r@ == proc_locals(source@).locals,
{
    let chars = chars_of(source);
    let rows = lines(chars.as_slice());
    let mut out: Table<u16> = Table::new();
    let ghost all = pieces(rows@);
    let mut i: usize = 0;
    assert(all.take(0) =~= seq![]);
    while i < rows.len()
        invariant
            i <= rows.len(),
            all == pieces(rows@),
            out.wf(),
            out.names() == locals_in(all.take(i as int)).names,
            out@ == locals_in(all.take(i as int)).locals,
        decreases rows.len() - i,
    {
        assert(all.take(i + 1).drop_last() =~= all.take(i as int));
        assert(all.take(i + 1).last() == rows@[i as int]@);
        if let Some((name, n)) = read_locals(rows[i]) {
            out.put(string_of(name).as_str(), n);
        }
        i += 1;
    }
    assert(all.take(i as int) =~= all);
    out
}

/// `p` is the one procedure that invokes `child`.
pub open spec fn sole_caller(
    graph: Map<Seq<char>, Set<Seq<char>>>,
    child: Seq<char>,
    p: Seq<char>,
) -> bool {
    calls(graph, p, child) && forall|q: Seq<char>| #[trigger] calls(graph, q, child) ==> q == p
}

/// Each invoked procedure with its one caller; `None` where several bodies
/// invoke it.
pub open spec fn parent_map(graph: Map<Seq<char>, Set<Seq<char>>>) -> Map<
    Seq<char>,
    Option<Seq<char>>,
> {
    Map::new(
        |child: Seq<char>| exists|p: Seq<char>| #[trigger] calls(graph, p, child),
        |child: Seq<char>|
            if exists|p: Seq<char>| sole_caller(graph, child, p) {
                Some(choose|p: Seq<char>| sole_caller(graph, child, p))
            } else {
                None
            },
    )
}

/// A caller and one of its callees.
pub struct Edge {
    pub caller: Seq<char>,
    pub callee: Seq<char>,
}

/// The callers after a list of calls: the first caller of a procedure, or
/// `None` after the second.
spec fn callers_after(edges: Seq<Edge>) -> Map<Seq<char>, Option<Seq<char>>>
    decreases edges.len(),
{
    if edges.len() == 0 {
        Map::empty()
    } else {
        let earlier = callers_after(edges.drop_last());
        let e = edges.last();
        if earlier.contains_key(e.callee) {
            earlier.insert(e.callee, None)
        } else {
            earlier.insert(e.callee, Some(e.caller))
        }
    }
}

proof fn lemma_callers_after(edges: Seq<Edge>, child: Seq<char>)
    requires
        edges.no_duplicates(),
    ensures
        callers_after(edges).contains_key(child) <==> exists|i: int|
            0 <= i < edges.len() && #[trigger] edges[i].callee == child,
        callers_after(edges).contains_key(child) ==> match callers_after(edges)[child] {
            Some(p) => edges.contains(Edge { caller: p, callee: child }) && forall|i: int|
                0 <= i < edges.len() && #[trigger] edges[i].callee == child ==> edges[i].caller
                    == p,
            None => exists|i: int, j: int|
                0 <= i < j < edges.len() && #[trigger] edges[i].callee == child
                    && #[trigger] edges[j].callee == child,
        },
    decreases edges.len(),
{
    if edges.len() > 0 {
        let shorter = edges.drop_last();
        let last = edges.len() - 1;
        lemma_callers_after(shorter, child);
        assert forall|i: int| 0 <= i < shorter.len() implies shorter[i] == edges[i] by {}
        if edges[last].callee == child {
            if callers_after(shorter).contains_key(child) {
                let i = choose|i: int| 0 <= i < shorter.len() && #[trigger] shorter[i].callee == child;
                assert(edges[i].callee == child);
            } else {
                assert(edges[last] == Edge { caller: edges[last].caller, callee: child });
                assert forall|i: int|
                    0 <= i < edges.len() && #[trigger] edges[i].callee == child implies edges[i].caller
                    == edges[last].caller by {
                    if i < last {
                        assert(shorter[i].callee == child);
                    }
                }
            }
        } else {
            if callers_after(shorter).contains_key(child) {
                let i = choose|i: int| 0 <= i < shorter.len() && #[trigger] shorter[i].callee == child;
                assert(edges[i].callee == child);
                match callers_after(shorter)[child] {
                    Some(p) => {
                        let e = Edge { caller: p, callee: child };
                        let k = shorter.index_of(e);
                        assert(edges[k] == e);
                        assert forall|i: int|
                            0 <= i < edges.len() && #[trigger] edges[i].callee
                                == child implies edges[i].caller == p by {
                            assert(shorter[i].callee == child);
                        }
                    },
                    None => {
                        let (a, b) = choose|a: int, b: int|
                            0 <= a < b < shorter.len() && #[trigger] shorter[a].callee == child
                                && #[trigger] shorter[b].callee == child;
                        assert(edges[a].callee == child && edges[b].callee == child);
                    },
                }
            } else {
                assert forall|i: int| 0 <= i < edges.len() implies #[trigger] edges[i].callee
                    != child by {
                    if i < last {
                        assert(shorter[i].callee != child);
                    }
                }
            }
        }
    }
}

/// A list that holds each call of a graph once gives the graph's parents.
proof fn lemma_parents(graph: Map<Seq<char>, Set<Seq<char>>>, edges: Seq<Edge>)
    requires
        edges.no_duplicates(),
        forall|p: Seq<char>, c: Seq<char>| #[trigger]
            calls(graph, p, c) <==> edges.contains(Edge { caller: p, callee: c }),
    ensures
        callers_after(edges) == parent_map(graph),
{
    let found = callers_after(edges);
    let wanted = parent_map(graph);
    assert forall|child: Seq<char>|
        #![trigger found.dom().contains(child)]
        #![trigger wanted.dom().contains(child)]
        #![trigger found[child]]
        found.contains_key(child) == wanted.contains_key(child) && (found.contains_key(child)
            ==> found[child] == wanted[child]) by {
        lemma_callers_after(edges, child);
        if found.contains_key(child) {
            let i = choose|i: int| 0 <= i < edges.len() && #[trigger] edges[i].callee == child;
            assert(edges[i] == Edge { caller: edges[i].caller, callee: child });
            assert(calls(graph, edges[i].caller, child));
            match found[child] {
                Some(p) => {
                    assert(calls(graph, p, child));
                    assert forall|q: Seq<char>| #[trigger] calls(graph, q, child) implies q == p by {
                        let e = Edge { caller: q, callee: child };
                        assert(edges.contains(e));
                        let k = edges.index_of(e);
                        assert(edges[k].callee == child);
                    }
                    assert(sole_caller(graph, child, p));
                    let q = choose|q: Seq<char>| sole_caller(graph, child, q);
                    assert(sole_caller(graph, child, q));
                    assert(q == p);
                },
                None => {
                    let (a, b) = choose|a: int, b: int|
                        0 <= a < b < edges.len() && #[trigger] edges[a].callee == child
                            && #[trigger] edges[b].callee == child;
                    assert(edges[a] == Edge { caller: edges[a].caller, callee: child });
                    assert(edges[b] == Edge { caller: edges[b].caller, callee: child });
                    assert(calls(graph, edges[a].caller, child));
                    assert(calls(graph, edges[b].caller, child));
                    assert(edges[a].caller != edges[b].caller);
                    assert forall|p: Seq<char>| !sole_caller(graph, child, p) by {
                        if sole_caller(graph, child, p) {
                            assert(edges[a].caller == p && edges[b].caller == p);
                        }
                    }
                },
            }
        } else {
            assert forall|p: Seq<char>| !#[trigger] calls(graph, p, child) by {
                let e = Edge { caller: p, callee: child };
                if edges.contains(e) {
                    let k = edges.index_of(e);
                    assert(edges[k].callee == child);
                }
            }
        }
    }
    assert(found =~= wanted);
}

/// Each procedure's caller, where it has just one.
pub struct ParentMap {
    parents: Table<Option<String>>,
}

impl View for ParentMap {
    type V = Map<Seq<char>, Option<Seq<char>>>;

    /// The one caller of each invoked procedure.
    closed spec fn view(&self) -> Map<Seq<char>, Option<Seq<char>>> {
        self.parents@.map_values(|p: Option<String>| option_text(p))
    }
}

impl ParentMap {
    /// No procedure stands twice.
    pub closed spec fn wf(&self) -> bool {
        self.parents.wf()
    }

    /// The one caller of a procedure, where there is just one.
    pub fn parent(&self, child: &str) -> (r: Option<String>)
        requires
            self.wf(),
        ensures
            match r {
                Some(p) => self@.contains_key(child@) && self@[child@] == Some(p@),
                None => !self@.contains_key(child@) || self@[child@] is None,
            },
    {
        match self.parents.get(child) {
            Some(Some(p)) => Some(p.clone()),
            _ => None,
        }
    }

    fn add(&mut self, caller: &str, callee: &str, edges: Ghost<Seq<Edge>>)
        requires
            old(self).wf(),
            old(self)@ == callers_after(edges@),
        ensures
            final(self).wf(),
            final(self)@ == callers_after(
                edges@.push(Edge { caller: caller@, callee: callee@ }),
            ),
    {
        let ghost before = self@;
        let ghost longer = edges@.push(Edge { caller: caller@, callee: callee@ });
        assert(longer.drop_last() =~= edges@);
        let parent = if self.parents.position(callee).is_some() {
            None
        } else {
            Some(caller.to_owned())
        };
        self.parents.put(callee, parent);
        assert(self@ =~= before.insert(callee@, option_text(parent)));
    }
}

/// The one caller of each procedure that the graph's bodies invoke.
pub fn build_parent_map(call_graph: &CallGraph) -> (r: ParentMap)
    requires
        call_graph.wf(),
    ensures
        r.wf(),
        r@ == parent_map(call_graph@),
{
    let mut out = ParentMap { parents: Table::new() };
    let callers = &call_graph.kinds.callers;
    let ghost mut edges: Seq<Edge> = seq![];
    let mut i: usize = 0;
    assert(out@ =~= Map::empty());
    proof {
        callers.lemma_names();
    }
    while i < callers.len()
        invariant
            i <= callers.names().len(),
            call_graph.wf(),
            *callers == call_graph.kinds.callers,
            callers.names().no_duplicates(),
            out.wf(),
            out@ == callers_after(edges),
            edges.no_duplicates(),
            forall|e: Edge| #[trigger]
                edges.contains(e) <==> calls(call_graph@, e.caller, e.callee) && exists|k: int|
                    0 <= k < i && #[trigger] callers.names()[k] == e.caller,
        decreases callers.names().len() - i,
    {
        let caller = callers.name_at(i);
        let callees = callers.value_at(i);
        let ghost earlier = edges;
        proof {
            assert(callees.wf());
            callees.lemma_names();
        }
        let mut j: usize = 0;
        while j < callees.len()
            invariant
                i < callers.names().len(),
                j <= callees.names().len(),
                call_graph.wf(),
                *callers == call_graph.kinds.callers,
                callers.names().no_duplicates(),
                callers.names()[i as int] == caller@,
                callers@.contains_key(caller@),
                *callees == callers@[caller@],
                callees.wf(),
                callees.names().no_duplicates(),
                forall|k: Seq<char>| #[trigger]
                    callees@.contains_key(k) == callees.names().contains(k),
                out.wf(),
                out@ == callers_after(edges),
                edges.no_duplicates(),
                forall|e: Edge| #[trigger]
                    earlier.contains(e) <==> calls(call_graph@, e.caller, e.callee) && exists|k: int|
                        0 <= k < i && #[trigger] callers.names()[k] == e.caller,
                forall|e: Edge| #[trigger]
                    edges.contains(e) <==> (earlier.contains(e) || (e.caller == caller@ && exists|
                        k: int,
                    |
                        0 <= k < j && #[trigger] callees.names()[k] == e.callee)),
            decreases callees.names().len() - j,
        {
            let callee = callees.name_at(j);
            let ghost e = Edge { caller: caller@, callee: callee@ };
            assert(!edges.contains(e));
            out.add(caller.as_str(), callee.as_str(), Ghost(edges));
            proof {
                let longer = edges.push(e);
                assert forall|x: Edge| #[trigger]
                    longer.contains(x) <==> (earlier.contains(x) || (x.caller == caller@ && exists|
                        k: int,
                    |
                        0 <= k < j + 1 && #[trigger] callees.names()[k] == x.callee)) by {
                    if longer.contains(x) {
                        let n = longer.index_of(x);
                        assert(longer[n] == x);
                        if n < edges.len() {
                            assert(edges[n] == x);
                            assert(edges.contains(x));
                        } else {
                            assert(callees.names()[j as int] == x.callee);
                        }
                    } else {
                        if edges.contains(x) {
                            let n = edges.index_of(x);
                            assert(longer[n] == x);
                        }
                        assert(longer[edges.len() as int] == e);
                    }
                }
                edges = longer;
            }
            j += 1;
        }
        assert forall|e: Edge| #[trigger]
            edges.contains(e) <==> calls(call_graph@, e.caller, e.callee) && exists|k: int|
                0 <= k < i + 1 && #[trigger] callers.names()[k] == e.caller by {
            if e.caller == caller@ {
                assert(callers.names()[i as int] == e.caller);
                assert(callees.names().contains(e.callee) <==> calls(
                    call_graph@,
                    e.caller,
                    e.callee,
                ));
            }
        }
        i += 1;
    }
    proof {
        assert forall|p: Seq<char>, c: Seq<char>| #[trigger]
            calls(call_graph@, p, c) <==> edges.contains(Edge { caller: p, callee: c }) by {
            let e = Edge { caller: p, callee: c };
            if calls(call_graph@, p, c) {
                callers.lemma_names();
                assert(callers@.contains_key(p));
                let k = callers.names().index_of(p);
                assert(callers.names()[k] == e.caller);
            }
            assert(edges.contains(e) <==> calls(call_graph@, e.caller, e.callee) && exists|k: int|
                0 <= k < i && #[trigger] callers.names()[k] == e.caller);
        }
        lemma_parents(call_graph@, edges);
    }
    out
}

/// How many callers a chain may have between a procedure and `#main`.
pub const CHAIN_LIMIT: u32 = 256;

/// The chain of callers from `#main` down to `leaf`, found in at most `fuel`
/// steps. `None` where a procedure on the way has no caller or several.
pub open spec fn chain(
    parents: Map<Seq<char>, Option<Seq<char>>>,
    leaf: Seq<char>,
    fuel: nat,
) -> Option<Seq<Seq<char>>>
    decreases fuel,
{
    if fuel == 0 || !parents.contains_key(leaf) {
        None
    } else {
        match parents[leaf] {
            None => None,
            Some(p) => if p == "#main"@ {
                Some(seq![p, leaf])
            } else {
                match chain(parents, p, (fuel - 1) as nat) {
                    Some(c) => Some(c.push(leaf)),
                    None => None,
                }
            },
        }
    }
}

/// A chain begins with `#main`, ends with its leaf, and each member but the
/// first is invoked by the one before it and by no other body.
pub proof fn lemma_chain(parents: Map<Seq<char>, Option<Seq<char>>>, leaf: Seq<char>, fuel: nat)
    requires
        chain(parents, leaf, fuel) is Some,
    ensures
        2 <= chain(parents, leaf, fuel)->0.len() <= fuel + 1,
        chain(parents, leaf, fuel)->0[0] == "#main"@,
        chain(parents, leaf, fuel)->0.last() == leaf,
        forall|i: int|
            0 <= i < chain(parents, leaf, fuel)->0.len() - 1 ==> parents.contains_key(
                #[trigger] chain(parents, leaf, fuel)->0[i + 1],
            ) && parents[chain(parents, leaf, fuel)->0[i + 1]] == Some(
                chain(parents, leaf, fuel)->0[i],
            ),
    decreases fuel,
{
    let p = parents[leaf]->0;
    let c = chain(parents, leaf, fuel)->0;
    if p != "#main"@ {
        lemma_chain(parents, p, (fuel - 1) as nat);
        let shorter = chain(parents, p, (fuel - 1) as nat)->0;
        assert forall|i: int| 0 <= i < c.len() - 1 implies parents.contains_key(
            #[trigger] c[i + 1],
        ) && parents[c[i + 1]] == Some(c[i]) by {
            if i + 1 < shorter.len() {
                assert(shorter[i + 1] == c[i + 1]);
            }
        }
    }
}

/// In a chain each procedure is invoked by the one before it, and by no other
/// body.
pub proof fn lemma_chain_calls(
    graph: Map<Seq<char>, Set<Seq<char>>>,
    leaf: Seq<char>,
    fuel: nat,
    i: int,
)
    requires
        chain(parent_map(graph), leaf, fuel) is Some,
        0 <= i < chain(parent_map(graph), leaf, fuel)->0.len() - 1,
    ensures
        sole_caller(
            graph,
            chain(parent_map(graph), leaf, fuel)->0[i + 1],
            chain(parent_map(graph), leaf, fuel)->0[i],
        ),
{
    let parents = parent_map(graph);
    let c = chain(parents, leaf, fuel)->0;
    lemma_chain(parents, leaf, fuel);
    let child = c[i + 1];
    assert(parents.contains_key(child) && parents[child] == Some(c[i]));
    let p = choose|p: Seq<char>| sole_caller(graph, child, p);
    assert(sole_caller(graph, child, p));
}

fn chain_within(parents: &ParentMap, leaf: &str, fuel: u32) -> (r: Option<Vec<String>>)
    requires
        parents.wf(),
    ensures
        match r {
            Some(c) => chain(parents@, leaf@, fuel as nat) == Some(texts(c@)),
            None => chain(parents@, leaf@, fuel as nat) is None,
        },
    decreases fuel,
{
    if fuel == 0 {
        return None;
    }
    match parents.parent(leaf) {
        None => None,
        Some(p) => {
            if same_text(p.as_str(), "#main") {
                let mut out: Vec<String> = Vec::new();
                out.push(p);
                out.push(leaf.to_owned());
                assert(texts(out@) =~= seq!["#main"@, leaf@]);
                Some(out)
            } else {
                match chain_within(parents, p.as_str(), fuel - 1) {
                    None => None,
                    Some(mut out) => {
                        let ghost shorter = out@;
                        out.push(leaf.to_owned());
                        assert(texts(out@) =~= texts(shorter).push(leaf@));
                        Some(out)
                    },
                }
            }
        },
    }
}

/// The chain of callers from `#main` down to `leaf`, outermost first. `None`
/// where the chain is ambiguous, does not reach `#main`, or is too long.
pub fn chain_from_main(parents: &ParentMap, leaf: &str) -> (r: Option<Vec<String>>)
    requires
        parents.wf(),
    ensures
        match r {
            Some(c) => chain(parents@, leaf@, CHAIN_LIMIT as nat) == Some(texts(c@)),
            None => chain(parents@, leaf@, CHAIN_LIMIT as nat) is None,
        },
{
    chain_within(parents, leaf, CHAIN_LIMIT)
}

} // verus!
