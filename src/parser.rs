use vstd::prelude::*;

use crate::arena::SlotHandle;
use crate::graph::{Digraph, NodeHandle};

verus! {

/// What `str::trim` leaves of a text.
pub uninterp spec fn trimmed(s: Seq<char>) -> Seq<char>;

/// The pieces that `str::split` cuts a text into at a separator.
pub uninterp spec fn pieces(s: Seq<char>, sep: Seq<char>) -> Seq<Seq<char>>;

/// Relies on `str::trim`: the text without leading and trailing whitespace,
/// which depends on the text alone.
#[verifier::external_body]
fn trim_text(s: &str) -> (r: &str)
    ensures
        r@ == trimmed(s@),
{
    s.trim()
}

/// Relies on `str::split`: the pieces between occurrences of `sep`, in order;
/// there is always at least one.
#[verifier::external_body]
fn split_text(s: &str, sep: &str) -> (r: Vec<String>)
    ensures
        r@.len() >= 1,
        r@.map_values(|p: String| p@) == pieces(s@, sep@),
{
    s.split(sep).map(String::from).collect()
}

/// `names` with each of `toks` appended that it does not hold yet, in order.
pub open spec fn names_after(names: Seq<Seq<char>>, toks: Seq<Seq<char>>) -> Seq<Seq<char>>
    decreases toks.len(),
{
    if toks.len() == 0 {
        names
    } else {
        let n = names_after(names, toks.drop_last());
        if n.contains(toks.last()) {
            n
        } else {
            n.push(toks.last())
        }
    }
}

proof fn lemma_names_after(names: Seq<Seq<char>>, toks: Seq<Seq<char>>)
    ensures
        names.is_prefix_of(names_after(names, toks)),
        forall|q: int| 0 <= q < toks.len() ==> names_after(names, toks).contains(#[trigger] toks[q]),
    decreases toks.len(),
{
    if toks.len() > 0 {
        let t = toks.drop_last();
        lemma_names_after(names, t);
        let n = names_after(names, t);
        assert forall|q: int| 0 <= q < toks.len() implies names_after(names, toks).contains(
            #[trigger] toks[q],
        ) by {
            if q < t.len() {
                assert(t[q] == toks[q]);
                let w = choose|w: int| 0 <= w < n.len() && n[w] == toks[q];
                assert(names_after(names, toks)[w] == toks[q]);
            } else if !n.contains(toks.last()) {
                assert(names_after(names, toks)[n.len() as int] == toks.last());
            }
        }
    }
}

proof fn lemma_names_after_prefix(names: Seq<Seq<char>>, toks: Seq<Seq<char>>, k: int)
    requires
        0 <= k <= toks.len(),
    ensures
        names_after(names, toks.take(k)).is_prefix_of(names_after(names, toks)),
    decreases toks.len(),
{
    if k == toks.len() {
        assert(toks.take(k) =~= toks);
    } else {
        let t = toks.drop_last();
        assert(toks.take(k) =~= t.take(k));
        lemma_names_after_prefix(names, t, k);
    }
}

/// Reserved for parse failures; parsing never fails, so no value of it is made.
#[derive(Debug)]
pub struct GraphParseError {
    reserved: (),
}

/// Builds a graph from lines of the form `source target*`, giving each
/// distinct name exactly one node.
pub struct DigraphParser {
    graph: Digraph<String>,
    names: Vec<String>,
    handles: Vec<NodeHandle>,
}

impl DigraphParser {
    /// Names seen so far, in order of first appearance.
    pub closed spec fn names_view(&self) -> Seq<Seq<char>> {
        self.names@.map_values(|p: String| p@)
    }

    /// Node of each name of `names_view`, at the same position.
    pub closed spec fn handles_view(&self) -> Seq<NodeHandle> {
        self.handles@
    }

    pub closed spec fn graph_view(&self) -> Digraph<String> {
        self.graph
    }

    /// Each name is held once and has a live node with that name as payload.
    pub open spec fn wf(&self) -> bool {
        &&& self.graph_view().wf()
        &&& self.names_view().len() == self.handles_view().len()
        &&& self.graph_view().count() == self.names_view().len()
        &&& forall|i: int, j: int|
            0 <= i < j < self.names_view().len() ==> self.names_view()[i] != self.names_view()[j]
        &&& forall|i: int|
            0 <= i < self.handles_view().len() ==> {
                &&& self.graph_view().live(#[trigger] self.handles_view()[i])
                &&& self.graph_view().data_of(self.handles_view()[i])@ == self.names_view()[i]
            }
        &&& self.graph_view().arena().slot_len() == self.names_view().len()
        &&& forall|i: int|
            0 <= i < self.handles_view().len() ==> #[trigger] self.handles_view()[i] == SlotHandle {
                index: i as usize,
                generation: 0,
            }
    }

    /// Every live node of the graph is the node of one of the names.
    pub proof fn lemma_live_nodes_are_named(&self, h: NodeHandle)
        requires
            self.wf(),
            self.graph_view().live(h),
        ensures
            0 <= h.index < self.handles_view().len(),
            self.handles_view()[h.index as int] == h,
    {
        let g = self.handles_view()[h.index as int];
        assert(self.graph_view().live(g));
    }

    /// The node recorded for `name`.
    pub open spec fn handle_named(&self, name: Seq<char>) -> NodeHandle {
        self.handles_view()[choose|i: int| 0 <= i < self.names_view().len() && self.names_view()[i] == name]
    }

    /// Edges that the node of `name` has before a line starting with `name`.
    pub open spec fn start_edges(&self, name: Seq<char>) -> Seq<NodeHandle> {
        if self.names_view().contains(name) {
            self.graph_view().edges_of(self.handle_named(name))
        } else {
            Seq::empty()
        }
    }

    /// What reading `line` does to a parser in state `self`, giving `next`.
    /// Blank lines change nothing. Otherwise, unless node storage ran out,
    /// new names are appended in order of first appearance, the first name's
    /// node gets edges to the nodes of the following names, in order, and
    /// every other node keeps its edges.
    pub open spec fn line_step(&self, next: DigraphParser, line: Seq<char>) -> bool {
        let t = trimmed(line);
        let ps = pieces(t, seq![' ']);
        &&& next.wf()
        &&& self.names_view().is_prefix_of(next.names_view())
        &&& self.handles_view().is_prefix_of(next.handles_view())
        &&& (t.len() == 0 ==> next == *self)
        &&& (t.len() != 0 && names_after(self.names_view(), ps).len() < usize::MAX ==> {
            &&& next.names_view() == names_after(self.names_view(), ps)
            &&& next.graph_view().edges_of(next.handle_named(ps[0])) == self.start_edges(ps[0])
                + ps.drop_first().map_values(|n: Seq<char>| next.handle_named(n))
            &&& forall|i: int|
                0 <= i < next.names_view().len() && next.names_view()[i] != ps[0]
                    ==> #[trigger] next.graph_view().edges_of(next.handles_view()[i]) == if i
                    < self.names_view().len() {
                    self.graph_view().edges_of(self.handles_view()[i])
                } else {
                    Seq::empty()
                }
        })
    }

    /// `self` and `other` hold the same names, nodes, payloads and edges.
    pub open spec fn agrees(&self, other: DigraphParser) -> bool {
        &&& self.names_view() == other.names_view()
        &&& self.handles_view() == other.handles_view()
        &&& forall|i: int|
            0 <= i < self.handles_view().len() ==> {
                &&& self.graph_view().data_of(#[trigger] self.handles_view()[i])@
                    == other.graph_view().data_of(other.handles_view()[i])@
                &&& self.graph_view().edges_of(self.handles_view()[i]) == other.graph_view().edges_of(
                    other.handles_view()[i],
                )
            }
    }

    /// Parsers that agree have the same live nodes.
    pub proof fn lemma_agree_same_live(&self, other: DigraphParser)
        requires
            self.wf(),
            other.wf(),
            self.agrees(other),
        ensures
            forall|h: NodeHandle| #[trigger] self.graph_view().live(h) == other.graph_view().live(h),
    {
        assert forall|h: NodeHandle| #[trigger] self.graph_view().live(h) == other.graph_view().live(h) by {
            if self.graph_view().live(h) {
                self.lemma_live_nodes_are_named(h);
                assert(other.graph_view().live(other.handles_view()[h.index as int]));
            }
            if other.graph_view().live(h) {
                other.lemma_live_nodes_are_named(h);
                assert(self.graph_view().live(self.handles_view()[h.index as int]));
            }
        }
    }

    /// Reading a line is deterministic: the same line read by parsers that
    /// agree gives parsers that agree.
    pub proof fn lemma_line_step_determined(
        &self,
        other: DigraphParser,
        n1: DigraphParser,
        n2: DigraphParser,
        line: Seq<char>,
    )
        requires
            self.wf(),
            other.wf(),
            self.agrees(other),
            self.line_step(n1, line),
            other.line_step(n2, line),
            trimmed(line).len() == 0 || names_after(self.names_view(), pieces(trimmed(line), seq![' '])).len()
                < usize::MAX,
        ensures
            n1.agrees(n2),
    {
        let ps = pieces(trimmed(line), seq![' ']);
        if trimmed(line).len() != 0 {
            assert(n1.handles_view() =~= n2.handles_view());
            assert(self.start_edges(ps[0]) == other.start_edges(ps[0])) by {
                if self.names_view().contains(ps[0]) {
                    let j = choose|j: int| 0 <= j < self.names_view().len() && self.names_view()[j] == ps[0];
                    self.lemma_handle_named(j);
                    other.lemma_handle_named(j);
                }
            }
            assert forall|i: int| 0 <= i < n1.handles_view().len() implies {
                &&& n1.graph_view().data_of(#[trigger] n1.handles_view()[i])@
                    == n2.graph_view().data_of(n2.handles_view()[i])@
                &&& n1.graph_view().edges_of(n1.handles_view()[i]) == n2.graph_view().edges_of(
                    n2.handles_view()[i],
                )
            } by {
                if n1.names_view()[i] == ps[0] {
                    n1.lemma_handle_named(i);
                    n2.lemma_handle_named(i);
                    assert(ps.drop_first().map_values(|n: Seq<char>| n1.handle_named(n))
                        =~= ps.drop_first().map_values(|n: Seq<char>| n2.handle_named(n)));
                } else {
                    assert(n1.graph_view().edges_of(n1.handles_view()[i]) == if i < self.names_view().len() {
                        self.graph_view().edges_of(self.handles_view()[i])
                    } else {
                        Seq::<NodeHandle>::empty()
                    });
                    assert(n2.graph_view().edges_of(n2.handles_view()[i]) == if i < other.names_view().len() {
                        other.graph_view().edges_of(other.handles_view()[i])
                    } else {
                        Seq::<NodeHandle>::empty()
                    });
                }
            }
        }
    }

    /// Reading the same lines, in order, from parsers that agree leaves
    /// parsers that agree: parsing a whole text and feeding its lines one by
    /// one give the same graph.
    pub proof fn lemma_line_chains_agree(
        s1: Seq<DigraphParser>,
        s2: Seq<DigraphParser>,
        lines: Seq<Seq<char>>,
        k: int,
    )
        requires
            s1.len() == lines.len() + 1,
            s2.len() == lines.len() + 1,
            0 <= k <= lines.len(),
            s1[0].wf(),
            s2[0].wf(),
            s1[0].agrees(s2[0]),
            forall|q: int| 0 <= q < lines.len() ==> #[trigger] s1[q].line_step(s1[q + 1], lines[q]),
            forall|q: int| 0 <= q < lines.len() ==> #[trigger] s2[q].line_step(s2[q + 1], lines[q]),
            forall|q: int|
                0 <= q < lines.len() ==> trimmed(#[trigger] lines[q]).len() == 0 || names_after(
                    s1[q].names_view(),
                    pieces(trimmed(lines[q]), seq![' ']),
                ).len() < usize::MAX,
        ensures
            s1[k].wf(),
            s2[k].wf(),
            s1[k].agrees(s2[k]),
        decreases k,
    {
        if k > 0 {
            Self::lemma_line_chains_agree(s1, s2, lines, k - 1);
            let q = k - 1;
            assert(s1[q].line_step(s1[q + 1], lines[q]));
            assert(s2[q].line_step(s2[q + 1], lines[q]));
            assert(trimmed(lines[q]).len() == 0 || names_after(
                s1[q].names_view(),
                pieces(trimmed(lines[q]), seq![' ']),
            ).len() < usize::MAX);
            s1[k - 1].lemma_line_step_determined(s2[k - 1], s1[k], s2[k], lines[k - 1]);
        }
    }

    proof fn lemma_handle_named(&self, i: int)
        requires
            self.wf(),
            0 <= i < self.names_view().len(),
        ensures
            self.handle_named(self.names_view()[i]) == self.handles_view()[i],
    {
        let name = self.names_view()[i];
        let j = choose|j: int| 0 <= j < self.names_view().len() && self.names_view()[j] == name;
        assert(j == i);
    }

    pub fn new() -> (r: DigraphParser)
        ensures
            r.wf(),
            r.names_view().len() == 0,
    {
        DigraphParser { graph: Digraph::new(), names: Vec::new(), handles: Vec::new() }
    }

    /// Handle of the node named `name`, made on first sight.
    fn handle_for(&mut self, name: String) -> (r: Option<NodeHandle>)
        requires
            old(self).wf(),
        ensures
            final(self).wf(),
            old(self).names_view().is_prefix_of(final(self).names_view()),
            old(self).handles_view().is_prefix_of(final(self).handles_view()),
            r matches Some(h) ==> exists|i: int|
                0 <= i < final(self).names_view().len() && final(self).names_view()[i] == name@
                    && final(self).handles_view()[i] == h,
            old(self).names_view().contains(name@) ==> r is Some && final(self).names_view()
                == old(self).names_view(),
            r is Some ==> final(self).names_view().contains(name@),
            r is None ==> final(self).graph_view().arena().slot_len() >= usize::MAX,
            r is None ==> *final(self) == *old(self),
            final(self).graph_view().arena().slot_len() >= old(self).graph_view().arena().slot_len(),
            r matches Some(h) ==> h == final(self).handle_named(name@),
            !old(self).names_view().contains(name@) && r is Some ==> {
                &&& final(self).names_view() == old(self).names_view().push(name@)
                &&& final(self).graph_view().edges_of(r->0) == Seq::<NodeHandle>::empty()
            },
            forall|i: int| 0 <= i < old(self).handles_view().len()
                ==> #[trigger] final(self).graph_view().edges_of(old(self).handles_view()[i])
                == old(self).graph_view().edges_of(old(self).handles_view()[i]),
    {
        let mut i: usize = 0;
        while i < self.names.len()
            invariant
                i <= self.names@.len(),
                self.wf(),
                forall|k: int| 0 <= k < i ==> self.names_view()[k] != name@,
            decreases self.names@.len() - i,
        {
            if self.names[i] == name {
                assert(self.names_view()[i as int] == name@);
                proof {
                    self.lemma_handle_named(i as int);
                }
                return Some(self.handles[i]);
            }
            i += 1;
        }
        if self.graph.slot_count() == usize::MAX {
            // the node storage cannot grow any further
            return None;
        }
        let ghost old_names = self.names@;
        proof {
            if self.graph_view().arena().slot_len() > 0 {
                let last = (self.graph_view().arena().slot_len() - 1) as int;
                assert(self.graph_view().live(self.handles_view()[last]));
            }
        }
        let h = self.graph.add_node(name.clone());
        proof {
            if h.index < old(self).graph_view().arena().slot_len() {
                assert(old(self).graph_view().live(old(self).handles_view()[h.index as int]));
            }
        }
        self.names.push(name);
        self.handles.push(h);
        assert(self.names_view() =~= old(self).names_view().push(name@));
        assert(self.names_view()[self.names_view().len() - 1] == name@);
        assert forall|k: int| 0 <= k < self.handles_view().len() implies {
            &&& self.graph_view().live(#[trigger] self.handles_view()[k])
            &&& self.graph_view().data_of(self.handles_view()[k])@ == self.names_view()[k]
        } by {
            if k < self.handles_view().len() - 1 {
                assert(old(self).graph_view().live(old(self).handles_view()[k]));
            }
        }
        proof {
            self.lemma_handle_named(self.names_view().len() - 1);
            assert forall|i: int| 0 <= i < old(self).handles_view().len() implies #[trigger] self.graph_view().edges_of(
                old(self).handles_view()[i],
            ) == old(self).graph_view().edges_of(old(self).handles_view()[i]) by {
                assert(old(self).graph_view().live(old(self).handles_view()[i]));
            }
        }
        Some(h)
    }

    /// Reads one line: surrounding whitespace is trimmed and a blank line is
    /// skipped; otherwise the line is cut at single spaces into names, each name
    /// gets its node on first sight, and edges go from the first name to each
    /// following one, in order.
    pub fn parse_line(&mut self, line: &str)
        requires
            old(self).wf(),
        ensures
            final(self).wf(),
            old(self).line_step(*final(self), line@),
    {
        let t = trim_text(line);
        if t.is_empty() {
            return;
        }
        let tokens = split_text(t, " ");
        proof {
            reveal_strlit(" ");
            assert(" "@ =~= seq![' ']);
        }
        let ghost ps = pieces(trimmed(line@), seq![' ']);
        let mut handles: Vec<NodeHandle> = Vec::new();
        let mut k: usize = 0;
        while k < tokens.len()
            invariant
                self.wf(),
                old(self).wf(),
                old(self).names_view().is_prefix_of(self.names_view()),
                old(self).handles_view().is_prefix_of(self.handles_view()),
                k <= tokens@.len(),
                trimmed(line@).len() != 0,
                ps == pieces(trimmed(line@), seq![' ']),
                tokens@.map_values(|p: String| p@) == ps,
                self.names_view() == names_after(old(self).names_view(), ps.take(k as int)),
                handles@ == ps.take(k as int).map_values(|n: Seq<char>| self.handle_named(n)),
                forall|i: int| 0 <= i < self.handles_view().len() ==> #[trigger] self.graph_view().edges_of(
                    self.handles_view()[i],
                ) == if i < old(self).names_view().len() {
                    old(self).graph_view().edges_of(old(self).handles_view()[i])
                } else {
                    Seq::<NodeHandle>::empty()
                },
            decreases tokens.len() - k,
        {
            let ghost prev = *self;
            proof {
                lemma_names_after(old(self).names_view(), ps.take(k as int));
            }
            match self.handle_for(tokens[k].clone()) {
                Some(h) => {
                    handles.push(h);
                },
                None => {
                    proof {
                        lemma_names_after_prefix(old(self).names_view(), ps, k as int);
                    }
                    return;
                },
            }
            proof {
                let n = ps[k as int];
                assert(tokens@[k as int]@ == n);
                assert(ps.take(k + 1).drop_last() =~= ps.take(k as int));
                assert forall|q: int| 0 <= q < k implies self.handle_named(#[trigger] ps[q])
                    == prev.handle_named(ps[q]) by {
                    assert(ps.take(k as int)[q] == ps[q]);
                    let i = choose|i: int| 0 <= i < prev.names_view().len() && prev.names_view()[i] == ps[q];
                    prev.lemma_handle_named(i);
                    assert(self.names_view()[i] == prev.names_view()[i]);
                    assert(self.handles_view()[i] == prev.handles_view()[i]);
                    self.lemma_handle_named(i);
                }
                assert(handles@ =~= ps.take(k + 1).map_values(|n: Seq<char>| self.handle_named(n)));
                assert forall|i: int| 0 <= i < self.handles_view().len() implies #[trigger] self.graph_view().edges_of(
                    self.handles_view()[i],
                ) == if i < old(self).names_view().len() {
                    old(self).graph_view().edges_of(old(self).handles_view()[i])
                } else {
                    Seq::<NodeHandle>::empty()
                } by {
                    if i < prev.handles_view().len() {
                        assert(self.handles_view()[i] == prev.handles_view()[i]);
                        assert(prev.graph_view().edges_of(prev.handles_view()[i]) == if i < old(self).names_view().len() {
                            old(self).graph_view().edges_of(old(self).handles_view()[i])
                        } else {
                            Seq::<NodeHandle>::empty()
                        });
                    } else {
                        assert(self.handles_view()[i] == handles@[k as int]);
                    }
                }
            }
            k += 1;
        }
        proof {
            assert(ps.take(k as int) =~= ps);
            assert(ps.len() >= 1);
            lemma_names_after(old(self).names_view(), ps);
            assert(self.names_view().contains(ps[0]));
            let i0 = choose|i: int| 0 <= i < self.names_view().len() && self.names_view()[i] == ps[0];
            self.lemma_handle_named(i0);
            assert(handles@[0] == self.handle_named(ps[0]));
            assert(self.graph_view().live(self.handles_view()[i0]));
        }
        let source = handles[0];
        let ghost p1 = *self;
        let ghost e0 = self.graph_view().edges_of(source);
        let mut e: usize = 1;
        while e < handles.len()
            invariant
                self.wf(),
                1 <= e <= handles@.len(),
                self.names_view() == p1.names_view(),
                self.handles_view() == p1.handles_view(),
                self.graph_view().live(source),
                source == handles@[0],
                self.graph_view().edges_of(source) == e0 + handles@.subrange(1, e as int),
                forall|i: int| 0 <= i < p1.handles_view().len() && p1.handles_view()[i] != source
                    ==> #[trigger] self.graph_view().edges_of(p1.handles_view()[i])
                    == p1.graph_view().edges_of(p1.handles_view()[i]),
            decreases handles.len() - e,
        {
            let ghost before = self.graph_view();
            self.graph.add_edge(source, handles[e]);
            proof {
                assert(self.graph_view().edges_of(source) =~= e0 + handles@.subrange(1, e + 1));
                assert forall|x: int| 0 <= x < self.handles_view().len() implies {
                    &&& self.graph_view().live(#[trigger] self.handles_view()[x])
                    &&& self.graph_view().data_of(self.handles_view()[x])@ == self.names_view()[x]
                } by {
                    assert(before.live(self.handles_view()[x]));
                }
            }
            e += 1;
        }
        proof {
            let i0 = choose|i: int| 0 <= i < p1.names_view().len() && p1.names_view()[i] == ps[0];
            lemma_names_after(old(self).names_view(), ps);
            assert(ps.take(1)[0] == ps[0]);
            self.lemma_handle_named(i0);
            if old(self).names_view().contains(ps[0]) {
                let j = choose|j: int| 0 <= j < old(self).names_view().len() && old(self).names_view()[j] == ps[0];
                assert(self.names_view()[j] == ps[0]);
                assert(j == i0);
                old(self).lemma_handle_named(j);
                assert(old(self).handles_view()[j] == self.handles_view()[j]);
            } else {
                if i0 < old(self).names_view().len() {
                    assert(old(self).names_view()[i0] == ps[0]);
                }
            }
            assert(handles@.subrange(1, handles@.len() as int) =~= ps.drop_first().map_values(
                |n: Seq<char>| self.handle_named(n),
            ));
            assert forall|i: int|
                0 <= i < self.names_view().len() && self.names_view()[i] != ps[0]
                    implies #[trigger] self.graph_view().edges_of(self.handles_view()[i]) == if i
                    < old(self).names_view().len() {
                    old(self).graph_view().edges_of(old(self).handles_view()[i])
                } else {
                    Seq::<NodeHandle>::empty()
                } by {
                if p1.handles_view()[i] == source {
                    assert(self.names_view()[i] == self.names_view()[i0]);
                }
            }
        }
    }

    /// Reads every line of `s` in order and hands back the graph: the result
    /// is what `parse_line` on each line in turn leaves.
    pub fn parse(self, s: &str) -> (r: Result<Digraph<String>, GraphParseError>)
        requires
            self.wf(),
        ensures
            r is Ok,
            r matches Ok(g) ==> exists|states: Seq<DigraphParser>|
                {
                    &&& states.len() == pieces(s@, seq!['\n']).len() + 1
                    &&& states[0] == self
                    &&& forall|k: int|
                        0 <= k < states.len() - 1 ==> #[trigger] states[k].line_step(
                            states[k + 1],
                            pieces(s@, seq!['\n'])[k],
                        )
                    &&& g == states.last().graph_view()
                    &&& g.wf()
                },
    {
        let ghost start = self;
        let mut parser = self;
        let lines = split_text(s, "\n");
        proof {
            reveal_strlit("\n");
            assert("\n"@ =~= seq!['\n']);
        }
        let ghost ls = pieces(s@, seq!['\n']);
        let ghost mut states: Seq<DigraphParser> = seq![parser];
        let mut k: usize = 0;
        while k < lines.len()
            invariant
                parser.wf(),
                k <= lines@.len(),
                lines@.map_values(|p: String| p@) == ls,
                ls == pieces(s@, seq!['\n']),
                states.len() == k + 1,
                states[0] == start,
                states.last() == parser,
                forall|q: int| 0 <= q < states.len() - 1 ==> #[trigger] states[q].line_step(
                    states[q + 1],
                    ls[q],
                ),
            decreases lines.len() - k,
        {
            let ghost before = parser;
            assert(lines@[k as int]@ == ls[k as int]);
            parser.parse_line(lines[k].as_str());
            proof {
                let old_states = states;
                states = states.push(parser);
                assert forall|q: int| 0 <= q < states.len() - 1 implies #[trigger] states[q].line_step(
                    states[q + 1],
                    ls[q],
                ) by {
                    if q < old_states.len() - 1 {
                        assert(states[q] == old_states[q]);
                        assert(states[q + 1] == old_states[q + 1]);
                    } else {
                        assert(states[q] == before);
                    }
                }
            }
            k += 1;
        }
        Ok(parser.graph)
    }

    /// Hands back the graph built so far.
    pub fn graph(self) -> (r: Digraph<String>)
        requires
            self.wf(),
        ensures
            r == self.graph_view(),
            r.wf(),
    {
        self.graph
    }
}

} // verus!
