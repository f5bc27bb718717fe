use vstd::prelude::*;

use crate::data::{edge_path_ok, indexed, path_at, separate, Edge, Node, RuleKey};
use crate::lexer::{push_range, wf_text, Location, SourceId};
use crate::ninja::Ninja;
use crate::source::{content, loc_text, loc_valid};

verus! {

/// One queued edit: replace the bytes at `loc` by `new_text`.
pub struct Change {
    pub loc: Location,
    pub new_text: Vec<u8>,
}

/// An edit as a value: the place and the replacement bytes.
pub type EditView = (Location, Seq<u8>);

pub open spec fn edits_of(cs: Seq<Change>) -> Seq<EditView> {
    cs.map_values(|c: Change| (c.loc, c.new_text@))
}

/// Two edits may both apply: they start at different places and their ranges do not
/// overlap (an insertion right after a replaced range is fine).
pub open spec fn disjoint(a: Location, b: Location) -> bool {
    a.start != b.start && (a.stop <= b.start || b.stop <= a.start)
}

pub open spec fn no_conflicts(es: Seq<EditView>) -> bool {
    forall|i: int, j: int| 0 <= i < es.len() && 0 <= j < es.len() && i != j ==> disjoint(
        #[trigger] es[i].0,
        #[trigger] es[j].0,
    )
}

pub open spec fn all_in_range(es: Seq<EditView>, len: int) -> bool {
    forall|i: int| 0 <= i < es.len() ==> #[trigger] es[i].0.start <= es[i].0.stop <= len
}

/// `order` lists every edit once, by increasing start.
pub open spec fn sorted_order(es: Seq<EditView>, order: Seq<usize>) -> bool {
    &&& order.len() == es.len()
    &&& forall|a: int| 0 <= a < order.len() ==> #[trigger] order[a] < es.len()
    &&& forall|a: int, b: int| 0 <= a < b < order.len() ==> #[trigger] order[a] != #[trigger] order[b]
    &&& forall|a: int, b: int|
        0 <= a < b < order.len() ==> es[#[trigger] order[a] as int].0.start
            < es[#[trigger] order[b] as int].0.start
}

pub open spec fn arrange(es: Seq<EditView>, order: Seq<usize>) -> Seq<EditView> {
    order.map_values(|j: usize| es[j as int])
}

/// The text from `cursor` on, with the edits from the `k`-th on applied in turn.
pub open spec fn splice_from(text: Seq<u8>, es: Seq<EditView>, k: int, cursor: int) -> Seq<u8>
    decreases es.len() - k,
{
    if k < 0 || k >= es.len() {
        text.subrange(cursor, text.len() as int)
    } else {
        text.subrange(cursor, es[k].0.start as int) + es[k].1 + splice_from(
            text,
            es,
            k + 1,
            es[k].0.stop as int,
        )
    }
}

/// `out` is `text` with the edits applied in order of their start: each edit's range
/// replaced by its text, every other byte kept.
pub open spec fn patched(text: Seq<u8>, es: Seq<EditView>, out: Seq<u8>) -> bool {
    exists|order: Seq<usize>|
        sorted_order(es, order) && out == splice_from(text, arrange(es, order), 0, 0)
}

/// The edits of one file, in the order they were queued.
pub open spec fn changes_for(es: Seq<EditView>, id: SourceId) -> Seq<EditView>
    decreases es.len(),
{
    if es.len() == 0 {
        Seq::empty()
    } else {
        let rest = changes_for(es.drop_last(), id);
        if es.last().0.source_id == id {
            rest.push(es.last())
        } else {
            rest
        }
    }
}

/// The ids below `m` of files that have edits, increasing.
pub open spec fn touched(es: Seq<EditView>, m: nat) -> Seq<u32>
    decreases m,
{
    if m == 0 {
        Seq::empty()
    } else {
        let before = touched(es, (m - 1) as nat);
        if changes_for(es, SourceId((m - 1) as u32)).len() > 0 {
            before.push((m - 1) as u32)
        } else {
            before
        }
    }
}

/// `ks` lists, once each, the edges of `edges` that use `rule`.
pub open spec fn uses_of(edges: Map<u64, Edge>, rule: RuleKey, ks: Seq<u64>) -> bool {
    &&& ks.no_duplicates()
    &&& forall|ek: u64| ks.contains(ek) <==> (edges.contains_key(ek) && edges[ek].rule == rule)
}

/// Why a commit was refused.
#[derive(Debug, Clone, Copy, PartialEq, Eq, Structural)]
pub enum PatchError {
    /// An edit names a file that was never loaded.
    UnknownSource,
    /// An edit's range does not lie inside its file.
    OutOfRange,
    /// Two edits of one file overlap or start at the same place.
    Overlap,
}

#[derive(Debug, Clone, Copy, PartialEq, Eq, Structural)]
pub struct CommitError {
    pub kind: PatchError,
    pub source_id: SourceId,
}

/// The new text of one edited file.
pub struct NewFile {
    pub source_id: SourceId,
    pub text: Vec<u8>,
}

fn disjoint_exec(a: Location, b: Location) -> (r: bool)
    ensures
        r == disjoint(a, b),
{
    a.start != b.start && (a.stop <= b.start || b.stop <= a.start)
}

/// The indices of `cs`, ordered by start; the starts must differ.
fn sort_by_start(cs: &Vec<Change>) -> (order: Vec<usize>)
    requires
        no_conflicts(edits_of(cs@)),
    ensures
        sorted_order(edits_of(cs@), order@),
{
    let ghost es = edits_of(cs@);
    let mut order: Vec<usize> = Vec::new();
    let mut i: usize = 0;
    while i < cs.len()
        invariant
            es == edits_of(cs@),
            no_conflicts(es),
            0 <= i <= cs@.len(),
            order@.len() == i,
            forall|a: int| 0 <= a < order@.len() ==> #[trigger] order@[a] < i,
            forall|a: int, b: int|
                0 <= a < b < order@.len() ==> #[trigger] order@[a] != #[trigger] order@[b],
            forall|a: int, b: int|
                0 <= a < b < order@.len() ==> es[#[trigger] order@[a] as int].0.start < es[
                #[trigger] order@[b] as int].0.start,
        decreases cs@.len() - i,
    {
        let s = cs[i].loc.start;
        let mut q: usize = 0;
        while q < order.len() && cs[order[q]].loc.start < s
            invariant
                es == edits_of(cs@),
                0 <= q <= order@.len(),
                i < cs@.len(),
                s == es[i as int].0.start,
                forall|a: int| 0 <= a < order@.len() ==> #[trigger] order@[a] < i,
                forall|a: int| 0 <= a < q ==> es[#[trigger] order@[a] as int].0.start < s,
            decreases order@.len() - q,
        {
            q = q + 1;
        }
        let ghost old_order = order@;
        proof {
            old_order.insert_ensures(q as int, i);
            if q < old_order.len() {
                let oq = old_order[q as int] as int;
                assert(oq != i);
                assert(disjoint(es[oq].0, es[i as int].0));
                assert(es[oq].0.start > s);
            }
        }
        order.insert(q, i);
        proof {
            assert forall|a: int| 0 <= a < order@.len() implies #[trigger] order@[a] < i + 1 by {
                if a < q {
                } else if a > q {
                    assert(order@[a] == old_order[a - 1]);
                }
            }
            assert forall|a: int, b: int|
                0 <= a < b < order@.len() implies #[trigger] order@[a] != #[trigger] order@[b] by {
                if b < q {
                } else if b == q {
                } else if a < q {
                    assert(order@[b] == old_order[b - 1]);
                } else if a == q {
                    assert(order@[b] == old_order[b - 1]);
                } else {
                    assert(order@[a] == old_order[a - 1]);
                    assert(order@[b] == old_order[b - 1]);
                }
            }
            assert forall|a: int, b: int|
                0 <= a < b < order@.len() implies es[#[trigger] order@[a] as int].0.start < es[
                #[trigger] order@[b] as int].0.start by {
                if q < old_order.len() {
                    assert(es[old_order[q as int] as int].0.start > s);
                }
                if b < q {
                } else if b == q {
                } else if a < q {
                    assert(order@[b] == old_order[b - 1]);
                    if q < b - 1 {
                        assert(es[old_order[q as int] as int].0.start < es[old_order[b - 1] as int].0.start);
                    }
                } else if a == q {
                    assert(order@[b] == old_order[b - 1]);
                    if q < b - 1 {
                        assert(es[old_order[q as int] as int].0.start < es[old_order[b - 1] as int].0.start);
                    }
                } else {
                    assert(order@[a] == old_order[a - 1]);
                    assert(order@[b] == old_order[b - 1]);
                }
            }
        }
        i = i + 1;
    }
    order
}


/// Applies the edits `cs` to `text`. Every range must lie inside the text
/// and no two edits may overlap or start at the same place.
pub fn generate_new_file(text: &[u8], cs: &Vec<Change>) -> (r: Result<Vec<u8>, PatchError>)
    ensures
        match r {
            Ok(out) => {
                &&& all_in_range(edits_of(cs@), text@.len() as int)
                &&& no_conflicts(edits_of(cs@))
                &&& patched(text@, edits_of(cs@), out@)
            },
            Err(PatchError::OutOfRange) => !all_in_range(
                edits_of(cs@),
                text@.len() as int,
            ),
            Err(PatchError::Overlap) => all_in_range(edits_of(cs@), text@.len() as int)
                && !no_conflicts(edits_of(cs@)),
            Err(PatchError::UnknownSource) => false,
        },
{
    let ghost es = edits_of(cs@);
    let len = text.len();
    let mut i: usize = 0;
    while i < cs.len()
        invariant
            es == edits_of(cs@),
            len == text@.len(),
            0 <= i <= cs@.len(),
            forall|a: int| 0 <= a < i ==> #[trigger] es[a].0.start <= es[a].0.stop <= len,
        decreases cs@.len() - i,
    {
        if !(cs[i].loc.start <= cs[i].loc.stop && cs[i].loc.stop <= len) {
            assert(!(es[i as int].0.start <= es[i as int].0.stop <= len));
            return Err(PatchError::OutOfRange);
        }
        i = i + 1;
    }
    let mut i: usize = 0;
    while i < cs.len()
        invariant
            es == edits_of(cs@),
            all_in_range(es, len as int),
            len == text@.len(),
            0 <= i <= cs@.len(),
            forall|a: int, b: int|
                0 <= a < i && 0 <= b < es.len() && a != b ==> disjoint(
                    #[trigger] es[a].0,
                    #[trigger] es[b].0,
                ),
        decreases cs@.len() - i,
    {
        let mut j: usize = 0;
        while j < cs.len()
            invariant
                es == edits_of(cs@),
                all_in_range(es, len as int),
                len == text@.len(),
                0 <= i < cs@.len(),
                0 <= j <= cs@.len(),
                forall|a: int, b: int|
                    0 <= a < i && 0 <= b < es.len() && a != b ==> disjoint(
                        #[trigger] es[a].0,
                        #[trigger] es[b].0,
                    ),
                forall|b: int| 0 <= b < j && b != i ==> disjoint(es[i as int].0, #[trigger] es[b].0),
            decreases cs@.len() - j,
        {
            if j != i && !disjoint_exec(cs[i].loc, cs[j].loc) {
                assert(!disjoint(es[i as int].0, es[j as int].0));
                return Err(PatchError::Overlap);
            }
            j = j + 1;
        }
        i = i + 1;
    }
    let order = sort_by_start(cs);
    let ghost arr = arrange(es, order@);
    let mut out: Vec<u8> = Vec::new();
    let mut cursor: usize = 0;
    let mut k: usize = 0;
    assert(out@ + splice_from(text@, arr, 0, 0) =~= splice_from(text@, arr, 0, 0));
    while k < order.len()
        invariant
            es == edits_of(cs@),
            arr == arrange(es, order@),
            sorted_order(es, order@),
            no_conflicts(es),
            all_in_range(es, len as int),
            len == text@.len(),
            0 <= k <= order@.len(),
            cursor <= len,
            k < order@.len() ==> cursor <= arr[k as int].0.start,
            out@ + splice_from(text@, arr, k as int, cursor as int) == splice_from(
                text@,
                arr,
                0,
                0,
            ),
        decreases order@.len() - k,
    {
        let c = &cs[order[k]];
        let ghost before = out@;
        assert(arr[k as int] == es[order@[k as int] as int]);
        push_range(&mut out, text, cursor, c.loc.start);
        push_range(&mut out, c.new_text.as_slice(), 0, c.new_text.len());
        proof {
            let e = arr[k as int];
            assert(c.new_text@.subrange(0, c.new_text@.len() as int) =~= c.new_text@);
            assert(before + text@.subrange(cursor as int, e.0.start as int) + e.1
                + splice_from(text@, arr, k + 1, e.0.stop as int) =~= before + (
            text@.subrange(cursor as int, e.0.start as int) + e.1 + splice_from(
                text@,
                arr,
                k + 1,
                e.0.stop as int,
            )));
            if k + 1 < order@.len() {
                let a = order@[k as int] as int;
                let b = order@[k + 1] as int;
                assert(a != b);
                assert(disjoint(es[a].0, es[b].0));
                assert(es[a].0.start < es[b].0.start);
                assert(arr[k + 1] == es[b]);
            }
        }
        cursor = c.loc.stop;
        k = k + 1;
    }
    push_range(&mut out, text, cursor, len);
    proof {
        assert(out@ =~= out@ + Seq::<u8>::empty());
    }
    Ok(out)
}


/// Every edit names a loaded file, and each file's edits lie inside it and do not
/// conflict.
pub open spec fn commit_allowed(texts: Seq<Seq<u8>>, es: Seq<EditView>) -> bool {
    &&& forall|i: int| 0 <= i < es.len() ==> (#[trigger] es[i].0.source_id.0 as int) < texts.len()
    &&& forall|id: int|
        0 <= id < texts.len() ==> {
            let mine = #[trigger] changes_for(es, SourceId(id as u32));
            all_in_range(mine, content(texts[id]).len() as int) && no_conflicts(mine)
        }
}

/// `files` holds, for each file with edits, in order of id, its text with its edits
/// applied.
pub open spec fn commit_output(texts: Seq<Seq<u8>>, es: Seq<EditView>, files: Seq<NewFile>) -> bool {
    let ids = touched(es, texts.len());
    &&& files.len() == ids.len()
    &&& forall|j: int|
        0 <= j < files.len() ==> {
            let f = #[trigger] files[j];
            &&& f.source_id.0 == ids[j]
            &&& (ids[j] as int) < texts.len()
            &&& patched(content(texts[ids[j] as int]), changes_for(es, f.source_id), f.text@)
        }
}

/// What a refused commit says: the file that could not be patched, and why.
pub open spec fn commit_refusal(texts: Seq<Seq<u8>>, es: Seq<EditView>, e: CommitError) -> bool {
    let mine = changes_for(es, e.source_id);
    match e.kind {
        PatchError::UnknownSource => exists|i: int|
            0 <= i < es.len() && #[trigger] es[i].0.source_id == e.source_id && (
            e.source_id.0 as int) >= texts.len(),
        PatchError::OutOfRange => (e.source_id.0 as int) < texts.len() && !all_in_range(
            mine,
            content(texts[e.source_id.0 as int]).len() as int,
        ),
        PatchError::Overlap => (e.source_id.0 as int) < texts.len() && !no_conflicts(mine),
    }
}

fn copy_change(c: &Change) -> (r: Change)
    ensures
        r.loc == c.loc,
        r.new_text@ == c.new_text@,
{
    let mut new_text: Vec<u8> = Vec::new();
    push_range(&mut new_text, c.new_text.as_slice(), 0, c.new_text.len());
    assert(new_text@ =~= c.new_text@);
    Change { loc: c.loc, new_text }
}

/// The edits queued against one loaded project.
pub struct ChangeList<'x> {
    ninja: &'x Ninja,
    changes: Vec<Change>,
}

impl<'x> ChangeList<'x> {
    /// The queued edits, in the order they were queued.
    pub closed spec fn queued(&self) -> Seq<EditView> {
        edits_of(self.changes@)
    }

    pub closed spec fn project(&self) -> Ninja {
        *self.ninja
    }

    pub fn new(ninja: &'x Ninja) -> (r: ChangeList<'x>)
        ensures
            r.project() == *ninja,
            r.queued().len() == 0,
    {
        ChangeList { ninja, changes: Vec::new() }
    }

    /// Queues replacing the bytes at `loc` by `new_text`.
    pub fn change(&mut self, loc: Location, new_text: &[u8])
        ensures
            final(self).project() == old(self).project(),
            final(self).queued() == old(self).queued().push((loc, new_text@)),
    {
        let mut text: Vec<u8> = Vec::new();
        push_range(&mut text, new_text, 0, new_text.len());
        assert(text@ =~= new_text@);
        let ghost before = self.changes@;
        self.changes.push(Change { loc, new_text: text });
        assert(edits_of(self.changes@) =~= edits_of(before).push((loc, new_text@)));
    }

    /// Queues renaming a rule: its definition and every `build` statement that uses it.
    pub fn rename_rule(&mut self, rule_key: RuleKey, new_name: &[u8])
        requires
            old(self).project().wf(),
            old(self).project().model().rule_map().contains_key(rule_key.0),
        ensures
            final(self).project() == old(self).project(),
            exists|ks: Seq<u64>|
                {
                    &&& uses_of(old(self).project().model().edge_map(), rule_key, ks)
                    &&& final(self).queued().len() == old(self).queued().len() + 1 + ks.len()
                    &&& forall|j: int|
                        0 <= j < ks.len() ==> final(self).queued()[old(self).queued().len() + 1 + j]
                            == (old(self).project().model().edge_map()[#[trigger] ks[j]].rule_loc,
                        new_name@)
                },
            final(self).queued().len() > old(self).queued().len(),
            final(self).queued().subrange(0, old(self).queued().len() as int) == old(self).queued(),
            final(self).queued()[old(self).queued().len() as int] == (old(self).project().model().rule_map()[rule_key.0].name.loc, new_name@),
            forall|j: int|
                old(self).queued().len() < j < final(self).queued().len() ==> (#[trigger] final(self).queued()[j]).1 == new_name@ && exists|ek: u64|
                    #[trigger] old(self).project().model().edge_map().contains_key(ek) && old(self).project().model().edge_map()[ek].rule == rule_key && final(self).queued()[j].0
                        == old(self).project().model().edge_map()[ek].rule_loc,
            forall|ek: u64| #[trigger]
                old(self).project().model().edge_map().contains_key(ek) && old(self).project().model().edge_map()[ek].rule == rule_key ==> exists|j: int|
                    old(self).queued().len() < j < final(self).queued().len() && (#[trigger] final(self).queued()[j]).0 == old(self).project().model().edge_map()[ek].rule_loc,
    {
        let ghost q0 = self.queued();
        let data = self.ninja.data();
        let rule = data.rule(rule_key);
        self.change(rule.name.loc, new_name);
        let ghost base = self.queued().len();
        let keys = data.edge_keys();
        let mut i: usize = 0;
        let ghost mut ks: Seq<u64> = Seq::empty();
        while i < keys.len()
            invariant
                self.project() == old(self).project(),
                *data == self.project().model(),
                forall|a: int, b: int| 0 <= a < b < keys@.len() ==> keys@[a] != keys@[b],
                ks.no_duplicates(),
                forall|ek: u64|
                    ks.contains(ek) <==> exists|a: int|
                        0 <= a < i && (#[trigger] keys@[a]).0 == ek && data.edge_map()[ek].rule
                            == rule_key,
                self.queued().len() == base + ks.len(),
                forall|j: int|
                    0 <= j < ks.len() ==> self.queued()[base + j] == (
                    data.edge_map()[#[trigger] ks[j]].rule_loc,
                    new_name@,
                ),
                base == q0.len() + 1,
                self.queued().len() >= base,
                self.queued().subrange(0, q0.len() as int) == q0,
                self.queued()[q0.len() as int] == (data.rule_map()[rule_key.0].name.loc, new_name@),
                0 <= i <= keys@.len(),
                forall|a: int|
                    0 <= a < keys@.len() ==> data.edge_map().contains_key(#[trigger] keys@[a].0),
                forall|j: int|
                    base <= j < self.queued().len() ==> (#[trigger] self.queued()[j]).1 == new_name@
                        && exists|ek: u64|
                        #[trigger] data.edge_map().contains_key(ek) && data.edge_map()[ek].rule
                            == rule_key && self.queued()[j].0 == data.edge_map()[ek].rule_loc,
                forall|a: int|
                    0 <= a < i && data.edge_map()[#[trigger] keys@[a].0].rule == rule_key
                        ==> exists|j: int|
                        base <= j < self.queued().len() && (#[trigger] self.queued()[j]).0
                            == data.edge_map()[keys@[a].0].rule_loc,
            decreases keys@.len() - i,
        {
            let edge = data.edge(keys[i]);
            let ghost ks0 = ks;
            if edge.rule == rule_key {
                let ghost q1 = self.queued();
                self.change(edge.rule_loc, new_name);
                proof {
                    let k = keys@[i as int].0;
                    assert(!ks0.contains(k)) by {
                        if ks0.contains(k) {
                            let a = choose|a: int|
                                0 <= a < i && (#[trigger] keys@[a]).0 == k && data.edge_map()[k].rule
                                    == rule_key;
                            assert(keys@[a] != keys@[i as int]);
                        }
                    }
                    ks = ks0.push(k);
                    assert forall|ek: u64|
                        ks.contains(ek) <==> exists|a: int|
                            0 <= a < i + 1 && (#[trigger] keys@[a]).0 == ek && data.edge_map()[ek].rule
                                == rule_key by {
                        if ek == k {
                            assert(ks[ks0.len() as int] == ek);
                            assert(keys@[i as int].0 == ek);
                        } else {
                            if ks.contains(ek) {
                                let j = choose|j: int| 0 <= j < ks.len() && ks[j] == ek;
                                assert(j < ks0.len());
                                assert(ks0.contains(ek));
                            }
                            if exists|a: int|
                                0 <= a < i + 1 && (#[trigger] keys@[a]).0 == ek && data.edge_map()[ek].rule
                                    == rule_key {
                                assert(ks0.contains(ek));
                                let j = choose|j: int| 0 <= j < ks0.len() && ks0[j] == ek;
                                assert(ks[j] == ek);
                            }
                        }
                    }
                    assert forall|j: int|
                        0 <= j < ks.len() implies self.queued()[base + j] == (
                        data.edge_map()[#[trigger] ks[j]].rule_loc,
                        new_name@,
                    ) by {
                        if j < ks0.len() {
                            assert(self.queued()[base + j] == q1[base + j]);
                        }
                    }
                    assert(self.queued()[q1.len() as int].0 == data.edge_map()[keys@[i as int].0].rule_loc);
                    assert forall|j: int|
                        base <= j < self.queued().len() implies (#[trigger] self.queued()[j]).1
                        == new_name@ && exists|ek: u64|
                        #[trigger] data.edge_map().contains_key(ek) && data.edge_map()[ek].rule
                            == rule_key && self.queued()[j].0 == data.edge_map()[ek].rule_loc by {
                        if j < q1.len() {
                            assert(self.queued()[j] == q1[j]);
                        } else {
                            assert(data.edge_map().contains_key(keys@[i as int].0));
                        }
                    }
                    assert forall|a: int|
                        0 <= a < i + 1 && data.edge_map()[#[trigger] keys@[a].0].rule == rule_key
                            implies exists|j: int|
                        base <= j < self.queued().len() && (#[trigger] self.queued()[j]).0
                            == data.edge_map()[keys@[a].0].rule_loc by {
                        if a < i {
                            let j = choose|j: int|
                                base <= j < q1.len() && (#[trigger] q1[j]).0
                                    == data.edge_map()[keys@[a].0].rule_loc;
                            assert(self.queued()[j] == q1[j]);
                        } else {
                            assert(self.queued()[q1.len() as int].0 == data.edge_map()[keys@[a].0].rule_loc);
                        }
                    }
                    assert(self.queued().subrange(0, q0.len() as int) =~= q1.subrange(0, q0.len() as int));
                }
            }
            i = i + 1;
        }
        proof {
            assert(uses_of(data.edge_map(), rule_key, ks)) by {
                assert forall|ek: u64|
                    ks.contains(ek) <==> (data.edge_map().contains_key(ek) && data.edge_map()[ek].rule
                        == rule_key) by {
                    if data.edge_map().contains_key(ek) && data.edge_map()[ek].rule == rule_key {
                        let a = choose|a: int| 0 <= a < keys@.len() && (#[trigger] keys@[a]).0 == ek;
                        assert(keys@[a].0 == ek);
                    }
                }
            }
            assert forall|ek: u64| #[trigger]
                data.edge_map().contains_key(ek) && data.edge_map()[ek].rule == rule_key implies exists|
                j: int,
            |
                q0.len() < j < self.queued().len() && (#[trigger] self.queued()[j]).0
                    == data.edge_map()[ek].rule_loc by {
                let a = choose|a: int| 0 <= a < keys@.len() && (#[trigger] keys@[a]).0 == ek;
                assert(data.edge_map()[keys@[a].0].rule == rule_key);
            }
            assert forall|j: int|
                q0.len() < j < self.queued().len() implies (#[trigger] self.queued()[j]).1 == new_name@
                && exists|ek: u64|
                #[trigger] old(self).project().model().edge_map().contains_key(ek) && old(self).project().model().edge_map()[ek].rule == rule_key && self.queued()[j].0
                    == old(self).project().model().edge_map()[ek].rule_loc by {
                let ek = choose|ek: u64|
                    #[trigger] data.edge_map().contains_key(ek) && data.edge_map()[ek].rule
                        == rule_key && self.queued()[j].0 == data.edge_map()[ek].rule_loc;
                assert(old(self).project().model().edge_map().contains_key(ek));
            }
        }
    }

    /// Queues replacing every recorded occurrence of the path `path` by `new_text`.
    pub fn rename_path(&mut self, path: &[u8], new_text: &[u8])
        requires
            old(self).project().wf(),
        ensures
            final(self).project() == old(self).project(),
            final(self).queued() == old(self).queued() + path_locations(
                old(self).project().model().node_seq(),
                path@,
            ).map_values(|l: Location| (l, new_text@)),
    {
        let ghost nodes = self.project().model().node_seq();
        proof {
            self.project().lemma_wf();
        }
        let data = self.ninja.data();
        match data.node(path) {
            None => {
                assert(!exists|i: int| 0 <= i < nodes.len() && (#[trigger] nodes[i]).path@ == path@);
                assert(self.queued() =~= self.queued() + Seq::<EditView>::empty());
            },
            Some(node) => {
                proof {
                    let i = choose|i: int|
                        0 <= i < nodes.len() && *node == #[trigger] nodes[i] && node.path@ == path@;
                    let c = choose|i: int| 0 <= i < nodes.len() && (#[trigger] nodes[i]).path@ == path@;
                    if i != c {
                        if i < c {
                            assert(nodes[i].path@ != nodes[c].path@);
                        } else {
                            assert(nodes[c].path@ != nodes[i].path@);
                        }
                    }
                }
                let ghost locs = node.locations@;
                let ghost q0 = self.queued();
                let mut k: usize = 0;
                while k < node.locations.len()
                    invariant
                        self.project() == old(self).project(),
                        q0 == old(self).queued(),
                        locs == node.locations@,
                        0 <= k <= locs.len(),
                        self.queued() == q0 + locs.subrange(0, k as int).map_values(
                            |l: Location| (l, new_text@),
                        ),
                    decreases locs.len() - k,
                {
                    self.change(node.locations[k], new_text);
                    assert(locs.subrange(0, k + 1).map_values(|l: Location| (l, new_text@))
                        =~= locs.subrange(0, k as int).map_values(|l: Location| (l, new_text@)).push(
                        (locs[k as int], new_text@),
                    ));
                    assert(self.queued() =~= q0 + locs.subrange(0, k + 1).map_values(
                        |l: Location| (l, new_text@),
                    ));
                    k = k + 1;
                }
                assert(locs.subrange(0, locs.len() as int) =~= locs);
            },
        }
    }

    /// Applies the queued edits: for each file with edits, in order of id, its text
    /// with them applied. Files without edits are left out; nothing is written here.
    pub fn commit(self) -> (r: Result<Vec<NewFile>, CommitError>)
        requires
            self.project().wf(),
        ensures
            r.is_ok() == commit_allowed(self.project().texts(), self.queued()),
            match r {
                Ok(files) => commit_output(self.project().texts(), self.queued(), files@),
                Err(e) => commit_refusal(self.project().texts(), self.queued(), e),
            },
            self.queued().len() == 0 ==> r.is_ok() && r.unwrap()@.len() == 0,
    {
        proof {
            self.project().lemma_wf();
        }
        let ghost texts = self.project().texts();
        let ghost es = self.queued();
        let n = self.ninja.source_count();
        let cs = &self.changes;
        let mut i: usize = 0;
        while i < cs.len()
            invariant
                es == edits_of(cs@),
                es == self.queued(),
                texts == self.project().texts(),
                n == texts.len(),
                0 <= i <= cs@.len(),
                forall|a: int| 0 <= a < i ==> (#[trigger] es[a].0.source_id.0 as int) < texts.len(),
            decreases cs@.len() - i,
        {
            if cs[i].loc.source_id.0 as usize >= n {
                assert(es[i as int].0.source_id == cs[i as int].loc.source_id);
                return Err(CommitError { kind: PatchError::UnknownSource, source_id: cs[i].loc.source_id });
            }
            i = i + 1;
        }
        let mut files: Vec<NewFile> = Vec::new();
        let mut id: usize = 0;
        while id < n
            invariant
                es == edits_of(cs@),
                es == self.queued(),
                n == texts.len(),
                texts == self.project().texts(),
                self.project().wf(),
                n < u32::MAX,
                forall|a: int| 0 <= a < es.len() ==> (#[trigger] es[a].0.source_id.0 as int) < texts.len(),
                forall|j: int| 0 <= j < texts.len() ==> wf_text(#[trigger] texts[j]),
                0 <= id <= n,
                forall|d: int|
                    0 <= d < id ==> {
                        let mine = #[trigger] changes_for(es, SourceId(d as u32));
                        all_in_range(mine, content(texts[d]).len() as int) && no_conflicts(mine)
                    },
                files@.len() == touched(es, id as nat).len(),
                forall|j: int|
                    0 <= j < files@.len() ==> {
                        let f = #[trigger] files@[j];
                        &&& f.source_id.0 == touched(es, id as nat)[j]
                        &&& (touched(es, id as nat)[j] as int) < texts.len()
                        &&& patched(
                            content(texts[touched(es, id as nat)[j] as int]),
                            changes_for(es, f.source_id),
                            f.text@,
                        )
                    },
                es.len() == 0 ==> files@.len() == 0,
            decreases n - id,
        {
            let sid = SourceId(id as u32);
            let mut mine: Vec<Change> = Vec::new();
            let mut i: usize = 0;
            while i < cs.len()
                invariant
                    es == edits_of(cs@),
                    0 <= i <= cs@.len(),
                    edits_of(mine@) == changes_for(es.subrange(0, i as int), sid),
                    es.len() == 0 ==> mine@.len() == 0,
                decreases cs@.len() - i,
            {
                let ghost before = mine@;
                if cs[i].loc.source_id == sid {
                    mine.push(copy_change(&cs[i]));
                    assert(edits_of(mine@) =~= edits_of(before).push(es[i as int]));
                }
                assert(es.subrange(0, i + 1).drop_last() =~= es.subrange(0, i as int));
                i = i + 1;
            }
            assert(es.subrange(0, cs@.len() as int) =~= es);
            let ghost old_files = files@;
            if mine.len() > 0 {
                let source = match self.ninja.source(sid) {
                    Some(s) => s,
                    None => {
                        return Err(CommitError { kind: PatchError::UnknownSource, source_id: sid });
                    },
                };
                proof {
                    assert(touched(es, (id + 1) as nat) == touched(es, id as nat).push(id as u32));
                }
                match generate_new_file(source.text(), &mine) {
                    Ok(text) => {
                        files.push(NewFile { source_id: sid, text });
                        proof {
                            assert forall|j: int| 0 <= j < files@.len() implies {
                                let f = #[trigger] files@[j];
                                &&& f.source_id.0 == touched(es, (id + 1) as nat)[j]
                                &&& (touched(es, (id + 1) as nat)[j] as int) < texts.len()
                                &&& patched(
                                    content(texts[touched(es, (id + 1) as nat)[j] as int]),
                                    changes_for(es, f.source_id),
                                    f.text@,
                                )
                            } by {
                                if j < old_files.len() {
                                    assert(files@[j] == old_files[j]);
                                }
                            }
                        }
                    },
                    Err(kind) => {
                        return Err(CommitError { kind, source_id: sid });
                    },
                }
            } else {
                assert(changes_for(es, sid) =~= Seq::<EditView>::empty());
                assert(touched(es, (id + 1) as nat) == touched(es, id as nat));
                assert forall|j: int| 0 <= j < files@.len() implies {
                    let f = #[trigger] files@[j];
                    &&& f.source_id.0 == touched(es, (id + 1) as nat)[j]
                    &&& (touched(es, (id + 1) as nat)[j] as int) < texts.len()
                    &&& patched(
                        content(texts[touched(es, (id + 1) as nat)[j] as int]),
                        changes_for(es, f.source_id),
                        f.text@,
                    )
                } by {
                    assert(files@[j] == old_files[j]);
                }
            }
            let ghost prev = id;
            id = id + 1;
            assert(touched(es, id as nat) == touched(es, (prev + 1) as nat));
            assert forall|j: int| 0 <= j < files@.len() implies (#[trigger] files@[j]).source_id.0 == touched(es, id as nat)[j] by {}
            assert forall|j: int| 0 <= j < files@.len() implies (touched(es, id as nat)[j] as int) < texts.len() by {
                assert(files@[j].source_id.0 == touched(es, id as nat)[j]);
            }
            assert forall|j: int| 0 <= j < files@.len() implies patched(
                            content(texts[touched(es, id as nat)[j] as int]),
                            changes_for(es, (#[trigger] files@[j]).source_id),
                            files@[j].text@,
                        ) by {}
        }
        proof {
            let ids = touched(es, texts.len());
            assert(ids == touched(es, id as nat));
            assert forall|j: int| 0 <= j < files@.len() implies {
                let f = #[trigger] files@[j];
                &&& f.source_id.0 == ids[j]
                &&& (ids[j] as int) < texts.len()
                &&& patched(content(texts[ids[j] as int]), changes_for(es, f.source_id), f.text@)
            } by {}
        }
        Ok(files)
    }
}

/// The places recorded for the path `path`, or none when it was never written.
pub open spec fn path_locations(nodes: Seq<Node>, path: Seq<u8>) -> Seq<Location> {
    if exists|i: int| 0 <= i < nodes.len() && (#[trigger] nodes[i]).path@ == path {
        nodes[choose|i: int| 0 <= i < nodes.len() && (#[trigger] nodes[i]).path@ == path].locations@
    } else {
        Seq::empty()
    }
}

/// Renaming a path reaches every place where a build statement names it as an output
/// or an input, and only places where that path is written.
pub proof fn lemma_path_rename_complete(ninja: &Ninja, path: Seq<u8>)
    requires
        ninja.wf(),
    ensures
        forall|l: Location|
            path_locations(ninja.model().node_seq(), path).contains(l) ==> path_at(
                ninja.texts(),
                l,
                path,
            ),
        forall|k: u64, j: int|
            ninja.model().edge_map().contains_key(k) && 0 <= j
                < ninja.model().edge_map()[k].outputs@.len()
                && (#[trigger] ninja.model().edge_map()[k].outputs@[j]).elem@ == path
                ==> path_locations(ninja.model().node_seq(), path).contains(
                ninja.model().edge_map()[k].outputs@[j].loc,
            ),
        forall|k: u64, j: int|
            ninja.model().edge_map().contains_key(k) && 0 <= j
                < ninja.model().edge_map()[k].inputs@.len()
                && (#[trigger] ninja.model().edge_map()[k].inputs@[j]).elem@ == path
                ==> path_locations(ninja.model().node_seq(), path).contains(
                ninja.model().edge_map()[k].inputs@[j].loc,
            ),
{
    ninja.lemma_wf();
    let texts = ninja.texts();
    let m = ninja.model();
    let nodes = m.node_seq();
    assert forall|l: Location| path_locations(nodes, path).contains(l) implies path_at(
        texts,
        l,
        path,
    ) by {
        let c = choose|i: int| 0 <= i < nodes.len() && (#[trigger] nodes[i]).path@ == path;
        let j = choose|j: int| 0 <= j < nodes[c].locations@.len() && nodes[c].locations@[j] == l;
        assert(path_at(texts, nodes[c].locations@[j], nodes[c].path@));
    }
    assert forall|k: u64, j: int|
        m.edge_map().contains_key(k) && 0 <= j < m.edge_map()[k].outputs@.len()
            && (#[trigger] m.edge_map()[k].outputs@[j]).elem@ == path implies path_locations(
        nodes,
        path,
    ).contains(m.edge_map()[k].outputs@[j].loc) by {
        let o = m.edge_map()[k].outputs@[j];
        assert(edge_path_ok(texts, nodes, o));
        lemma_index_entry(nodes, path, o.loc);
    }
    assert forall|k: u64, j: int|
        m.edge_map().contains_key(k) && 0 <= j < m.edge_map()[k].inputs@.len()
            && (#[trigger] m.edge_map()[k].inputs@[j]).elem@ == path implies path_locations(
        nodes,
        path,
    ).contains(m.edge_map()[k].inputs@[j].loc) by {
        let o = m.edge_map()[k].inputs@[j];
        assert(edge_path_ok(texts, nodes, o));
        lemma_index_entry(nodes, path, o.loc);
    }
}

/// With unique paths, what the index records under `path` is in its entry.
proof fn lemma_index_entry(nodes: Seq<Node>, path: Seq<u8>, l: Location)
    requires
        indexed(nodes, path, l),
        forall|i: int, j: int|
            0 <= i < j < nodes.len() ==> (#[trigger] nodes[i]).path@ != (#[trigger] nodes[j]).path@,
    ensures
        path_locations(nodes, path).contains(l),
{
    let i = choose|i: int| 0 <= i < nodes.len() && (#[trigger] nodes[i]).path@ == path && nodes[i].locations@.contains(l);
    let c = choose|i: int| 0 <= i < nodes.len() && (#[trigger] nodes[i]).path@ == path;
    if i < c {
        assert(nodes[i].path@ != nodes[c].path@);
    } else if c < i {
        assert(nodes[c].path@ != nodes[i].path@);
    }
}

/// The edits of one file are edits of the list, in list order.
proof fn lemma_changes_for_index(es: Seq<EditView>, id: SourceId) -> (idx: Seq<int>)
    ensures
        idx.len() == changes_for(es, id).len(),
        forall|a: int| 0 <= a < idx.len() ==> 0 <= #[trigger] idx[a] < es.len(),
        forall|a: int|
            0 <= a < idx.len() ==> changes_for(es, id)[a] == es[#[trigger] idx[a]]
                && es[idx[a]].0.source_id == id,
        forall|a: int, b: int| 0 <= a < b < idx.len() ==> #[trigger] idx[a] < #[trigger] idx[b],
    decreases es.len(),
{
    if es.len() == 0 {
        Seq::empty()
    } else {
        let rest = lemma_changes_for_index(es.drop_last(), id);
        if es.last().0.source_id == id {
            let idx = rest.push(es.len() - 1);
            assert forall|a: int| 0 <= a < idx.len() implies changes_for(es, id)[a] == es[
            #[trigger] idx[a]] && es[idx[a]].0.source_id == id by {
                if a < rest.len() {
                    assert(idx[a] == rest[a]);
                }
            }
            assert forall|a: int, b: int| 0 <= a < b < idx.len() implies #[trigger] idx[a]
                < #[trigger] idx[b] by {
                if b < rest.len() {
                    assert(idx[a] == rest[a] && idx[b] == rest[b]);
                } else {
                    assert(idx[a] == rest[a]);
                }
            }
            idx
        } else {
            rest
        }
    }
}

/// A list of edits whose places lie in their files and, within one file, are apart
/// and start at different places, is one that commit applies.
pub proof fn lemma_commit_allowed(texts: Seq<Seq<u8>>, es: Seq<EditView>)
    requires
        texts.len() < u32::MAX,
        forall|i: int|
            0 <= i < es.len() ==> (#[trigger] es[i].0.source_id.0 as int) < texts.len()
                && es[i].0.start <= es[i].0.stop <= content(texts[es[i].0.source_id.0 as int]).len(),
        forall|i: int, j: int|
            0 <= i < es.len() && 0 <= j < es.len() && i != j && es[i].0.source_id
                == es[j].0.source_id ==> disjoint(#[trigger] es[i].0, #[trigger] es[j].0),
    ensures
        commit_allowed(texts, es),
{
    assert forall|id: int| 0 <= id < texts.len() implies {
        let mine = #[trigger] changes_for(es, SourceId(id as u32));
        all_in_range(mine, content(texts[id]).len() as int) && no_conflicts(mine)
    } by {
        let sid = SourceId(id as u32);
        let mine = changes_for(es, sid);
        let idx = lemma_changes_for_index(es, sid);
        assert forall|a: int| 0 <= a < mine.len() implies #[trigger] mine[a].0.start <= mine[a].0.stop
            <= content(texts[id]).len() as int by {
            assert(mine[a] == es[idx[a]]);
            let i = idx[a];
            assert((es[i].0.source_id.0 as int) < texts.len());
            assert(es[i].0.source_id.0 as int == id);
        }
        assert forall|a: int, b: int|
            0 <= a < mine.len() && 0 <= b < mine.len() && a != b implies disjoint(
            #[trigger] mine[a].0,
            #[trigger] mine[b].0,
        ) by {
            assert(mine[a] == es[idx[a]]);
            assert(mine[b] == es[idx[b]]);
            if a < b {
                assert(idx[a] < idx[b]);
            } else {
                assert(idx[b] < idx[a]);
            }
        }
    }
}

/// Renaming a rule queues edits that commit applies: its definition and its
/// references are written in loaded files, do not overlap and start apart.
pub proof fn lemma_rename_commits(ninja: &Ninja, rule: RuleKey, name: Seq<u8>, ks: Seq<u64>, es: Seq<EditView>)
    requires
        ninja.wf(),
        ninja.model().rule_map().contains_key(rule.0),
        rule.0 != ninja.model().phony_key(),
        uses_of(ninja.model().edge_map(), rule, ks),
        es.len() == 1 + ks.len(),
        es[0] == (ninja.model().rule_map()[rule.0].name.loc, name),
        forall|j: int|
            0 <= j < ks.len() ==> es[1 + j] == (ninja.model().edge_map()[#[trigger] ks[j]].rule_loc, name),
    ensures
        commit_allowed(ninja.texts(), es),
{
    ninja.lemma_wf();
    let m = ninja.model();
    let texts = ninja.texts();
    assert forall|i: int| 0 <= i < es.len() implies (#[trigger] es[i].0.source_id.0 as int) < texts.len()
        && es[i].0.start <= es[i].0.stop <= content(texts[es[i].0.source_id.0 as int]).len() by {
        if i > 0 {
            assert(ks.contains(ks[i - 1]));
            assert(m.edge_map().contains_key(ks[i - 1]));
        }
    }
    assert forall|i: int, j: int|
        0 <= i < es.len() && 0 <= j < es.len() && i != j && es[i].0.source_id == es[j].0.source_id
            implies disjoint(#[trigger] es[i].0, #[trigger] es[j].0) by {
        if i > 0 {
            assert(ks.contains(ks[i - 1]));
        }
        if j > 0 {
            assert(ks.contains(ks[j - 1]));
        }
        if i > 0 && j > 0 {
            assert(ks[i - 1] != ks[j - 1]);
            assert(separate(m.edge_map()[ks[i - 1]].rule_loc, m.edge_map()[ks[j - 1]].rule_loc));
        } else if i == 0 {
            assert(separate(m.rule_map()[rule.0].name.loc, m.edge_map()[ks[j - 1]].rule_loc));
        } else {
            assert(separate(m.rule_map()[rule.0].name.loc, m.edge_map()[ks[i - 1]].rule_loc));
        }
    }
    lemma_commit_allowed(texts, es);
}

/// Renaming a path queues edits that commit applies: the places recorded for it are
/// written in loaded files, do not overlap and start apart.
pub proof fn lemma_path_rename_commits(ninja: &Ninja, path: Seq<u8>, new_text: Seq<u8>)
    requires
        ninja.wf(),
    ensures
        commit_allowed(
            ninja.texts(),
            path_locations(ninja.model().node_seq(), path).map_values(|l: Location| (l, new_text)),
        ),
{
    ninja.lemma_wf();
    let nodes = ninja.model().node_seq();
    let texts = ninja.texts();
    let locs = path_locations(nodes, path);
    let es = locs.map_values(|l: Location| (l, new_text));
    if exists|i: int| 0 <= i < nodes.len() && (#[trigger] nodes[i]).path@ == path {
        let c = choose|i: int| 0 <= i < nodes.len() && (#[trigger] nodes[i]).path@ == path;
        assert(locs == nodes[c].locations@);
        assert forall|i: int| 0 <= i < es.len() implies (#[trigger] es[i].0.source_id.0 as int)
            < texts.len() && es[i].0.start <= es[i].0.stop <= content(
            texts[es[i].0.source_id.0 as int],
        ).len() by {
            assert(es[i].0 == nodes[c].locations@[i]);
            assert(path_at(texts, nodes[c].locations@[i], nodes[c].path@));
        }
        assert forall|i: int, j: int|
            0 <= i < es.len() && 0 <= j < es.len() && i != j && es[i].0.source_id
                == es[j].0.source_id implies disjoint(#[trigger] es[i].0, #[trigger] es[j].0) by {
            assert(es[i].0 == nodes[c].locations@[i]);
            assert(es[j].0 == nodes[c].locations@[j]);
            if i < j {
                assert(separate(nodes[c].locations@[i], nodes[c].locations@[j]));
            } else {
                assert(separate(nodes[c].locations@[j], nodes[c].locations@[i]));
            }
        }
    }
    lemma_commit_allowed(texts, es);
}

/// The places that renaming a rule edits hold the rule's name: its definition, and
/// the name in each build statement that uses it.
pub proof fn lemma_rule_sites(ninja: &Ninja, rule: RuleKey)
    requires
        ninja.wf(),
        ninja.model().rule_map().contains_key(rule.0),
        rule.0 != ninja.model().phony_key(),
    ensures
        loc_valid(ninja.texts(), ninja.model().rule_map()[rule.0].name.loc),
        loc_text(ninja.texts(), ninja.model().rule_map()[rule.0].name.loc) == ninja.model().rule_map()[rule.0].name.elem@,
        forall|k: u64|
            #[trigger] ninja.model().edge_map().contains_key(k) && ninja.model().edge_map()[k].rule
                == rule ==> loc_valid(ninja.texts(), ninja.model().edge_map()[k].rule_loc)
                && loc_text(ninja.texts(), ninja.model().edge_map()[k].rule_loc)
                == ninja.model().rule_map()[rule.0].name.elem@,
{
    ninja.lemma_wf();
}

impl Ninja {
    /// A new, empty list of edits for this project.
    pub fn change(&self) -> (r: ChangeList)
        ensures
            r.project() == *self,
            r.queued().len() == 0,
    {
        ChangeList::new(self)
    }
}


} // verus!
