use vstd::prelude::*;
use crate::by_start::{lemma_sorted_keeps_items, sort_by_start, sorted_by_start};
use crate::interval_index::{covers_point, index_items, IdentType};
use crate::ast::Program;
use crate::semantic_analyze::{analyze, index_entries, lemma_analysis_sound, resolutions_sound, Semantic};
use crate::session::compiled_from;
use crate::span::Span;
use crate::symbol_table::{uses_of, ReferenceId, ReferenceView, SymbolId, SymbolView};

verus! {

/// Span `a` of entity `i` starts before span `b` of entity `k`, or as early
/// with an id not above `k`.
pub open spec fn earlier_or_same(a: Span, i: int, b: Span, k: int) -> bool {
    a.start < b.start || (a.start == b.start && i <= k)
}

/// Symbol `i` is defined at `p`, and no other symbol defined at `p` starts
/// earlier, or starts as early with a smaller id.
pub open spec fn is_first_binding_at(syms: Seq<SymbolView>, p: int, i: int) -> bool {
    &&& 0 <= i < syms.len()
    &&& syms[i].span.covers(p)
    &&& forall|k: int| 0 <= k < syms.len() && #[trigger] syms[k].span.covers(p) ==> earlier_or_same(syms[i].span, i, syms[k].span, k)
}

/// The same for references.
pub open spec fn is_first_use_at(refs: Seq<ReferenceView>, p: int, j: int) -> bool {
    &&& 0 <= j < refs.len()
    &&& refs[j].span.covers(p)
    &&& forall|k: int| 0 <= k < refs.len() && #[trigger] refs[k].span.covers(p) ==> earlier_or_same(refs[j].span, j, refs[k].span, k)
}

pub open spec fn some_binding_at(syms: Seq<SymbolView>, p: int) -> bool {
    exists|k: int| 0 <= k < syms.len() && #[trigger] syms[k].span.covers(p)
}

pub open spec fn some_use_at(refs: Seq<ReferenceView>, p: int) -> bool {
    exists|k: int| 0 <= k < refs.len() && #[trigger] refs[k].span.covers(p)
}

/// The symbol targeted at `p`: the one defined there, else the one that the
/// use there resolves to.
pub open spec fn symbol_under(syms: Seq<SymbolView>, refs: Seq<ReferenceView>, p: int) -> Option<SymbolId> {
    if some_binding_at(syms, p) {
        Some((choose|i: int| is_first_binding_at(syms, p, i)) as SymbolId)
    } else if some_use_at(refs, p) {
        refs[choose|j: int| is_first_use_at(refs, p, j)].symbol_id
    } else {
        None
    }
}

proof fn lemma_first_unique_binding(syms: Seq<SymbolView>, p: int, i: int, k: int)
    requires
        is_first_binding_at(syms, p, i),
        is_first_binding_at(syms, p, k),
    ensures
        i == k,
{
}

proof fn lemma_first_unique_use(refs: Seq<ReferenceView>, p: int, j: int, k: int)
    requires
        is_first_use_at(refs, p, j),
        is_first_use_at(refs, p, k),
    ensures
        j == k,
{
}

/// The hits of a point query are exactly the tagged spans of the table that
/// contain the point.
proof fn lemma_hits(sem: &Semantic, p: usize, hits: Seq<(usize, usize, IdentType)>)
    requires
        sem.wf(),
        forall|t: (usize, usize, IdentType)|
            #[trigger] hits.to_multiset().count(t) == if covers_point(t, p as int) {
                index_items(sem.ident_range).count(t)
            } else {
                0
            },
    ensures
        forall|t: (usize, usize, IdentType)|
            #[trigger] hits.contains(t) <==> (covers_point(t, p as int) && index_entries(
                sem.table.syms(),
                sem.table.refs(),
            ).contains(t)),
{
    broadcast use vstd::seq_lib::group_to_multiset_ensures;
    let entries = index_entries(sem.table.syms(), sem.table.refs());
    assert forall|t: (usize, usize, IdentType)|
        #[trigger] hits.contains(t) <==> (covers_point(t, p as int) && entries.contains(t)) by {
        assert(hits.contains(t) <==> hits.to_multiset().count(t) > 0);
        assert(entries.contains(t) <==> entries.to_multiset().count(t) > 0);
    }
}

proof fn lemma_entry_binding(syms: Seq<SymbolView>, refs: Seq<ReferenceView>, t: (usize, usize, IdentType))
    requires
        index_entries(syms, refs).contains(t),
        syms.len() <= usize::MAX,
        refs.len() <= usize::MAX,
    ensures
        t.2 matches IdentType::Binding(i) ==> i < syms.len() && t.0 == syms[i as int].span.start
            && t.1 == syms[i as int].span.end,
        t.2 matches IdentType::Reference(j) ==> j < refs.len() && t.0 == refs[j as int].span.start
            && t.1 == refs[j as int].span.end,
{
    let entries = index_entries(syms, refs);
    let x = choose|x: int| 0 <= x < entries.len() && entries[x] == t;
    if x >= syms.len() {
        let y = x - syms.len();
        assert(entries[x] == (refs[y].span.start, refs[y].span.end, IdentType::Reference(y as usize)));
    } else {
        assert(entries[x] == (syms[x].span.start, syms[x].span.end, IdentType::Binding(x as usize)));
    }
}

proof fn lemma_binding_entry(syms: Seq<SymbolView>, refs: Seq<ReferenceView>, i: int)
    requires
        0 <= i < syms.len(),
    ensures
        index_entries(syms, refs).contains((syms[i].span.start, syms[i].span.end, IdentType::Binding(i as usize))),
{
    assert(index_entries(syms, refs)[i] == (syms[i].span.start, syms[i].span.end, IdentType::Binding(i as usize)));
}

proof fn lemma_use_entry(syms: Seq<SymbolView>, refs: Seq<ReferenceView>, j: int)
    requires
        0 <= j < refs.len(),
    ensures
        index_entries(syms, refs).contains((refs[j].span.start, refs[j].span.end, IdentType::Reference(j as usize))),
{
    assert(index_entries(syms, refs)[syms.len() + j] == (refs[j].span.start, refs[j].span.end, IdentType::Reference(j as usize)));
}

impl Semantic {
    /// The symbol defined at `offset`, found through the index: the one that
    /// starts first, the earliest on a tie.
    pub fn get_symbol_at(&self, offset: usize) -> (r: Option<SymbolId>)
        requires
            self.wf(),
        ensures
            r is None <==> !some_binding_at(self.table.syms(), offset as int),
            r matches Some(i) ==> is_first_binding_at(self.table.syms(), offset as int, i as int),
    {
        let hits = self.ident_range.query(offset);
        let ghost syms = self.table.syms();
        let ghost refs = self.table.refs();
        let nsyms = self.table.symbols.len();
        let nrefs = self.table.references.len();
        proof {
            lemma_hits(self, offset, hits@);
            assert(syms.len() == nsyms);
            assert(refs.len() == nrefs);
            assert(syms.len() == self.table.symbols@.len());
            assert(refs.len() == self.table.references@.len());
        }
        let mut best: Option<SymbolId> = None;
        let mut k: usize = 0;
        while k < hits.len()
            invariant
                k <= hits.len(),
                self.wf(),
                syms == self.table.syms(),
                refs == self.table.refs(),
                syms.len() <= usize::MAX,
                refs.len() <= usize::MAX,
                forall|t: (usize, usize, IdentType)|
                    #[trigger] hits@.contains(t) <==> (covers_point(t, offset as int) && index_entries(syms, refs).contains(t)),
                best matches Some(i) ==> i < syms.len() && syms[i as int].span.covers(offset as int),
                forall|x: int| 0 <= x < k && (#[trigger] hits@[x]).2 is Binding ==> best is Some
                    && earlier_or_same(syms[best->0 as int].span, best->0 as int, syms[hits@[x].2->Binding_0 as int].span, hits@[x].2->Binding_0 as int),
            decreases hits.len() - k,
        {
            let t = hits[k];
            proof {
                assert(hits@.contains(hits@[k as int]));
                lemma_entry_binding(syms, refs, t);
            }
            match t.2 {
                IdentType::Binding(i) => {
                    let better = match best {
                        None => true,
                        Some(b) => {
                            let sb = self.table.symbols[b].span.start;
                            sb > t.0 || (sb == t.0 && b > i)
                        },
                    };
                    if better {
                        best = Some(i);
                    }
                },
                IdentType::Reference(_) => {},
            }
            k += 1;
        }
        proof {
            assert forall|x: int| 0 <= x < syms.len() && #[trigger] syms[x].span.covers(offset as int) implies
                best is Some && earlier_or_same(syms[best->0 as int].span, best->0 as int, syms[x].span, x) by {
                lemma_binding_entry(syms, refs, x);
                let t = (syms[x].span.start, syms[x].span.end, IdentType::Binding(x as usize));
                assert(hits@.contains(t));
                let y = choose|y: int| 0 <= y < hits@.len() && hits@[y] == t;
                assert(hits@[y].2 == IdentType::Binding(x as usize));
            }
        }
        best
    }

    /// The use of a name at `offset`, found through the index: the one that
    /// starts first, the earliest on a tie.
    pub fn get_reference_at(&self, offset: usize) -> (r: Option<ReferenceId>)
        requires
            self.wf(),
        ensures
            r is None <==> !some_use_at(self.table.refs(), offset as int),
            r matches Some(j) ==> is_first_use_at(self.table.refs(), offset as int, j as int),
    {
        let hits = self.ident_range.query(offset);
        let ghost syms = self.table.syms();
        let ghost refs = self.table.refs();
        let nsyms = self.table.symbols.len();
        let nrefs = self.table.references.len();
        proof {
            lemma_hits(self, offset, hits@);
            assert(syms.len() == nsyms);
            assert(refs.len() == nrefs);
            assert(syms.len() == self.table.symbols@.len());
            assert(refs.len() == self.table.references@.len());
        }
        let mut best: Option<ReferenceId> = None;
        let mut k: usize = 0;
        while k < hits.len()
            invariant
                k <= hits.len(),
                self.wf(),
                syms == self.table.syms(),
                refs == self.table.refs(),
                syms.len() <= usize::MAX,
                refs.len() <= usize::MAX,
                forall|t: (usize, usize, IdentType)|
                    #[trigger] hits@.contains(t) <==> (covers_point(t, offset as int) && index_entries(syms, refs).contains(t)),
                best matches Some(j) ==> j < refs.len() && refs[j as int].span.covers(offset as int),
                forall|x: int| 0 <= x < k && (#[trigger] hits@[x]).2 is Reference ==> best is Some
                    && earlier_or_same(refs[best->0 as int].span, best->0 as int, refs[hits@[x].2->Reference_0 as int].span, hits@[x].2->Reference_0 as int),
            decreases hits.len() - k,
        {
            let t = hits[k];
            proof {
                assert(hits@.contains(hits@[k as int]));
                lemma_entry_binding(syms, refs, t);
            }
            match t.2 {
                IdentType::Reference(j) => {
                    let better = match best {
                        None => true,
                        Some(b) => {
                            let sb = self.table.references[b].span.start;
                            sb > t.0 || (sb == t.0 && b > j)
                        },
                    };
                    if better {
                        best = Some(j);
                    }
                },
                IdentType::Binding(_) => {},
            }
            k += 1;
        }
        proof {
            assert forall|x: int| 0 <= x < refs.len() && #[trigger] refs[x].span.covers(offset as int) implies
                best is Some && earlier_or_same(refs[best->0 as int].span, best->0 as int, refs[x].span, x) by {
                lemma_use_entry(syms, refs, x);
                let t = (refs[x].span.start, refs[x].span.end, IdentType::Reference(x as usize));
                assert(hits@.contains(t));
                let y = choose|y: int| 0 <= y < hits@.len() && hits@[y] == t;
                assert(hits@[y].2 == IdentType::Reference(x as usize));
            }
        }
        best
    }

    /// The symbol targeted at `offset`: the one defined there, else the one
    /// that the use there resolves to.
    pub fn symbol_at_offset(&self, offset: usize) -> (r: Option<SymbolId>)
        requires
            self.wf(),
        ensures
            r == symbol_under(self.table.syms(), self.table.refs(), offset as int),
            r matches Some(i) ==> i < self.table.symbols.len(),
    {
        let ghost syms = self.table.syms();
        let ghost refs = self.table.refs();
        match self.get_symbol_at(offset) {
            Some(i) => {
                proof {
                    let c = choose|c: int| is_first_binding_at(syms, offset as int, c);
                    lemma_first_unique_binding(syms, offset as int, c, i as int);
                }
                Some(i)
            },
            None => match self.get_reference_at(offset) {
                Some(j) => {
                    proof {
                        let c = choose|c: int| is_first_use_at(refs, offset as int, c);
                        lemma_first_unique_use(refs, offset as int, c, j as int);
                    }
                    self.table.references[j].symbol_id
                },
                None => None,
            },
        }
    }
}

/// The uses of a symbol as `(start, end, reference id)`, in arena order.
pub open spec fn use_triples(refs: Seq<ReferenceView>, uses: Seq<ReferenceId>) -> Seq<(usize, usize, ReferenceId)> {
    uses.map_values(|j: ReferenceId| (refs[j as int].span.start, refs[j as int].span.end, j))
}

pub open spec fn triple_spans(ts: Seq<(usize, usize, ReferenceId)>) -> Seq<Span> {
    ts.map_values(|t: (usize, usize, ReferenceId)| Span { start: t.0, end: t.1 })
}

/// The spans of symbol `id`: its definition first when asked for, then its
/// uses in ascending start order.
pub open spec fn reference_spans(syms: Seq<SymbolView>, refs: Seq<ReferenceView>, id: SymbolId, include_self: bool) -> Seq<Span> {
    let uses = triple_spans(sorted_by_start(use_triples(refs, uses_of(refs, id))));
    if include_self && id < syms.len() {
        seq![syms[id as int].span] + uses
    } else {
        uses
    }
}

/// The spans of the symbol targeted at `p`, or none.
pub open spec fn references_at(syms: Seq<SymbolView>, refs: Seq<ReferenceView>, p: int, include_self: bool) -> Seq<Span> {
    match symbol_under(syms, refs, p) {
        Some(id) => reference_spans(syms, refs, id, include_self),
        None => Seq::empty(),
    }
}

/// Every use of symbol `s` lies in the reference arena.
proof fn lemma_uses_in_arena(refs: Seq<ReferenceView>, s: SymbolId)
    requires
        refs.len() <= usize::MAX,
    ensures
        forall|k: int| 0 <= k < uses_of(refs, s).len() ==> {
            &&& #[trigger] uses_of(refs, s)[k] < refs.len()
            &&& refs[uses_of(refs, s)[k] as int].symbol_id == Some(s)
        },
    decreases refs.len(),
{
    if refs.len() > 0 {
        let prev = refs.drop_last();
        lemma_uses_in_arena(prev, s);
        let u = uses_of(refs, s);
        assert forall|k: int| 0 <= k < u.len() implies #[trigger] u[k] < refs.len()
            && refs[u[k] as int].symbol_id == Some(s) by {
            if k < uses_of(prev, s).len() {
                assert(u[k] == uses_of(prev, s)[k]);
                assert(refs[u[k] as int] == prev[u[k] as int]);
            }
        }
    }
}

impl Semantic {
    /// The spans of symbol `id`: its definition first when `include_self`,
    /// then the uses that resolve to it, in ascending start order.
    pub fn find_references(&self, id: SymbolId, include_self: bool) -> (r: Vec<Span>)
        requires
            self.wf(),
        ensures
            r@ == reference_spans(self.table.syms(), self.table.refs(), id, include_self),
    {
        let uses = self.table.references_of(id);
        let ghost refs = self.table.refs();
        let nrefs = self.table.references.len();
        proof {
            assert(refs.len() == nrefs);
            lemma_uses_in_arena(refs, id);
        }
        let mut triples: Vec<(usize, usize, ReferenceId)> = Vec::new();
        let mut k: usize = 0;
        while k < uses.len()
            invariant
                k <= uses.len(),
                uses@ == uses_of(refs, id),
                refs == self.table.refs(),
                refs.len() == self.table.references@.len(),
                forall|x: int| 0 <= x < uses@.len() ==> #[trigger] uses@[x] < refs.len(),
                triples@ == use_triples(refs, uses@.take(k as int)),
            decreases uses.len() - k,
        {
            let j = uses[k];
            let span = self.table.references[j].span;
            triples.push((span.start, span.end, j));
            k += 1;
            assert(triples@ =~= use_triples(refs, uses@.take(k as int)));
        }
        assert(uses@.take(uses.len() as int) =~= uses@);
        let sorted = sort_by_start(&triples);
        let mut r: Vec<Span> = Vec::new();
        let with_definition = include_self && id < self.table.symbols.len();
        if with_definition {
            r.push(self.table.symbols[id].span);
        }
        let ghost prefix = r@;
        let mut m: usize = 0;
        while m < sorted.len()
            invariant
                m <= sorted.len(),
                r@ == prefix + triple_spans(sorted@.take(m as int)),
            decreases sorted.len() - m,
        {
            r.push(Span { start: sorted[m].0, end: sorted[m].1 });
            m += 1;
            assert(r@ =~= prefix + triple_spans(sorted@.take(m as int)));
        }
        assert(sorted@.take(sorted.len() as int) =~= sorted@);
        proof {
            let syms = self.table.syms();
            assert(syms.len() == self.table.symbols@.len());
            if with_definition {
                assert(prefix =~= seq![syms[id as int].span]);
            } else {
                assert(prefix =~= Seq::<Span>::empty());
                assert(r@ =~= triple_spans(sorted@));
            }
        }
        r
    }

    /// Where the symbol targeted at `offset` is defined.
    pub fn goto_definition(&self, offset: usize) -> (r: Option<Span>)
        requires
            self.wf(),
        ensures
            r == match symbol_under(self.table.syms(), self.table.refs(), offset as int) {
                Some(id) => Some(self.table.syms()[id as int].span),
                None => None,
            },
    {
        match self.symbol_at_offset(offset) {
            Some(id) => Some(self.table.symbols[id].span),
            None => None,
        }
    }
}

/// The spans of the symbol targeted at `ident_offset`: its definition first
/// when `include_self`, then its uses in ascending start order; none when
/// nothing is targeted there.
pub fn get_reference(sem: &Semantic, ident_offset: usize, include_self: bool) -> (r: Vec<Span>)
    requires
        sem.wf(),
    ensures
        r@ == references_at(sem.table.syms(), sem.table.refs(), ident_offset as int, include_self),
{
    match sem.symbol_at_offset(ident_offset) {
        Some(id) => sem.find_references(id, include_self),
        None => Vec::new(),
    }
}

#[derive(Clone, Copy, Debug, PartialEq, Eq, Structural)]
pub enum RenameError {
    /// No symbol is defined or used at the offset.
    NoRenameableSymbol,
}

/// One replacement: the text at `span` becomes `new_text`.
pub struct TextEdit {
    pub span: Span,
    pub new_text: String,
}

/// Renames the symbol targeted at `offset`: one edit per span that
/// `get_reference` gives with the definition included, each writing
/// `new_name`.
pub fn rename(sem: &Semantic, offset: usize, new_name: &String) -> (r: Result<Vec<TextEdit>, RenameError>)
    requires
        sem.wf(),
    ensures
        r is Err <==> symbol_under(sem.table.syms(), sem.table.refs(), offset as int) is None,
        r matches Err(e) ==> e == RenameError::NoRenameableSymbol,
        r matches Ok(edits) ==> {
            let spans = references_at(sem.table.syms(), sem.table.refs(), offset as int, true);
            &&& edits@.len() == spans.len()
            &&& forall|k: int| 0 <= k < spans.len() ==> (#[trigger] edits@[k]).span == spans[k]
                    && edits@[k].new_text@ == new_name@
        },
{
    match sem.symbol_at_offset(offset) {
        None => Err(RenameError::NoRenameableSymbol),
        Some(id) => {
            let spans = sem.find_references(id, true);
            let mut edits: Vec<TextEdit> = Vec::new();
            let mut k: usize = 0;
            while k < spans.len()
                invariant
                    k <= spans.len(),
                    edits@.len() == k,
                    forall|x: int| 0 <= x < k ==> (#[trigger] edits@[x]).span == spans@[x]
                        && edits@[x].new_text@ == new_name@,
                decreases spans.len() - k,
            {
                edits.push(TextEdit { span: spans[k], new_text: new_name.clone() });
                k += 1;
            }
            Ok(edits)
        },
    }
}

/// Find-references with the definition included, on a compiled program,
/// gives one span more than the symbol has uses: the definition's span
/// first, then for each use of the symbol the span of a use written with the
/// symbol's own name.
pub proof fn lemma_find_references_law(sem: Semantic, p: Program, id: SymbolId)
    requires
        compiled_from(sem, p),
        id < sem.table.syms().len(),
    ensures
        ({
            let syms = sem.table.syms();
            let refs = sem.table.refs();
            let spans = reference_spans(syms, refs, id, true);
            &&& spans.len() == 1 + uses_of(refs, id).len()
            &&& spans[0] == syms[id as int].span
            &&& forall|k: int| #![trigger spans[k]] 1 <= k < spans.len() ==> exists|j: int|
                #![trigger refs[j]]
                0 <= j < refs.len() && refs[j].symbol_id == Some(id) && refs[j].span == spans[k]
                    && refs[j].name == syms[id as int].name
        }),
{
    broadcast use vstd::seq_lib::group_to_multiset_ensures;
    let syms = sem.table.syms();
    let refs = sem.table.refs();
    lemma_analysis_sound(p);
    assert(resolutions_sound(analyze(p)));
    assert(refs.len() == sem.table.references.len());
    lemma_uses_in_arena(refs, id);
    let uses = uses_of(refs, id);
    let ut = use_triples(refs, uses);
    let sorted = sorted_by_start(ut);
    lemma_sorted_keeps_items(ut);
    let spans = reference_spans(syms, refs, id, true);
    assert(spans =~= seq![syms[id as int].span] + triple_spans(sorted));
    assert forall|k: int| #![trigger spans[k]] 1 <= k < spans.len() implies exists|j: int|
        #![trigger refs[j]]
        0 <= j < refs.len() && refs[j].symbol_id == Some(id) && refs[j].span == spans[k]
            && refs[j].name == syms[id as int].name by {
        let t = sorted[k - 1];
        assert(sorted.contains(t));
        assert(ut.to_multiset().count(t) > 0);
        assert(ut.contains(t));
        let m = choose|m: int| 0 <= m < ut.len() && ut[m] == t;
        let u = uses[m];
        assert(refs[u as int].symbol_id == Some(id));
        assert(spans[k] == Span { start: t.0, end: t.1 });
        assert(refs[u as int].span == spans[k]);
    }
}

/// The uses of a symbol are listed in strictly ascending order.
proof fn lemma_uses_ascending(refs: Seq<ReferenceView>, s: SymbolId)
    requires
        refs.len() <= usize::MAX,
    ensures
        forall|a: int, b: int| 0 <= a < b < uses_of(refs, s).len() ==> #[trigger] uses_of(refs, s)[a] < #[trigger] uses_of(refs, s)[b],
    decreases refs.len(),
{
    if refs.len() > 0 {
        let prev = refs.drop_last();
        lemma_uses_ascending(prev, s);
        lemma_uses_in_arena(prev, s);
        let u = uses_of(refs, s);
        let pu = uses_of(prev, s);
        assert forall|a: int, b: int| 0 <= a < b < u.len() implies #[trigger] u[a] < #[trigger] u[b] by {
            if b < pu.len() {
                assert(u[a] == pu[a] && u[b] == pu[b]);
            } else {
                assert(u[a] == pu[a]);
                assert(pu[a] < prev.len());
            }
        }
    }
}

/// The spans that find-references reports for a symbol of a compiled
/// program are pairwise distinct, so a rename, which writes one edit per
/// reported span, writes no span twice.
pub proof fn lemma_reference_spans_distinct(sem: Semantic, p: Program, id: SymbolId, include_self: bool)
    requires
        compiled_from(sem, p),
    ensures
        ({
            let spans = reference_spans(sem.table.syms(), sem.table.refs(), id, include_self);
            forall|a: int, b: int| 0 <= a < b < spans.len() ==> #[trigger] spans[a] != #[trigger] spans[b]
        }),
{
    broadcast use vstd::seq_lib::group_to_multiset_ensures;
    let syms = sem.table.syms();
    let refs = sem.table.refs();
    assert(refs.len() == sem.table.references.len());
    lemma_uses_in_arena(refs, id);
    lemma_uses_ascending(refs, id);
    let uses = uses_of(refs, id);
    let ut = use_triples(refs, uses);
    let sorted = sorted_by_start(ut);
    lemma_sorted_keeps_items(ut);
    assert(ut.no_duplicates()) by {
        assert forall|a: int, b: int| 0 <= a < ut.len() && 0 <= b < ut.len() && a != b implies ut[a] != ut[b] by {
            if a < b {
                assert(uses[a] < uses[b]);
            } else {
                assert(uses[b] < uses[a]);
            }
        }
    }
    ut.lemma_multiset_has_no_duplicates();
    sorted.lemma_multiset_has_no_duplicates_conv();
    let uspans = triple_spans(sorted);
    // each listed use span is the span of the use its triple names
    assert forall|k: int| 0 <= k < sorted.len() implies (#[trigger] sorted[k]).2 < refs.len()
        && uspans[k] == refs[sorted[k].2 as int].span && refs[sorted[k].2 as int].symbol_id == Some(id) by {
        let t = sorted[k];
        assert(sorted.contains(t));
        assert(sorted.to_multiset().count(t) > 0);
        assert(ut.to_multiset().count(t) > 0);
        assert(ut.contains(t));
        let m = choose|m: int| 0 <= m < ut.len() && ut[m] == t;
        assert(refs[uses[m] as int].symbol_id == Some(id));
    }
    assert forall|a: int, b: int| 0 <= a < b < uspans.len() implies #[trigger] uspans[a] != #[trigger] uspans[b] by {
        assert(sorted[a] != sorted[b]);
        let ja = sorted[a].2 as int;
        let jb = sorted[b].2 as int;
        if ja == jb {
            assert(sorted[a] == sorted[b]);
        } else if ja < jb {
            assert(refs[ja].span != refs[jb].span);
        } else {
            assert(refs[jb].span != refs[ja].span);
        }
    }
    if include_self && id < syms.len() {
        let spans = reference_spans(syms, refs, id, include_self);
        assert(spans =~= seq![syms[id as int].span] + uspans);
        assert forall|a: int, b: int| 0 <= a < b < spans.len() implies #[trigger] spans[a] != #[trigger] spans[b] by {
            if a == 0 {
                let jb = sorted[b - 1].2 as int;
                assert(syms[id as int].span != refs[jb].span);
            } else {
                assert(uspans[a - 1] != uspans[b - 1]);
            }
        }
    }
}

} // verus!
