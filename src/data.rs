use vstd::prelude::*;

use slotmap::{DefaultKey, Key, KeyData, SlotMap};

use crate::error::{ErrorKind, ParseError};
use crate::lexer::{eval_string, Location, SourceId, L};
use crate::source::{loc_text, loc_valid};

verus! {

/// The slot map of rules; its contents are `rule_slots`.
#[verifier::external_body]
pub struct RuleMap {
    map: SlotMap<DefaultKey, Rule>,
}

/// The slot map of edges; its contents are `edge_slots`.
#[verifier::external_body]
pub struct EdgeMap {
    map: SlotMap<DefaultKey, Edge>,
}

/// Handle of a rule: its slot-map key in integer form.
#[derive(Debug, Clone, Copy, PartialEq, Eq, Structural, Hash)]
pub struct RuleKey(pub u64);

/// Handle of a build edge: its slot-map key in integer form.
#[derive(Debug, Clone, Copy, PartialEq, Eq, Structural, Hash)]
pub struct EdgeKey(pub u64);

/// A rule: its name and where the name was written.
pub struct Rule {
    pub name: L<Vec<u8>>,
}

/// One `build` statement.
pub struct Edge {
    pub rule: RuleKey,
    /// Where the rule name was written in this statement.
    pub rule_loc: Location,
    pub outputs: Vec<L<Vec<u8>>>,
    /// Explicit, then implicit, then order-only inputs.
    pub inputs: Vec<L<Vec<u8>>>,
}

/// Every place where one path was written.
pub struct Node {
    pub path: Vec<u8>,
    pub locations: Vec<Location>,
}

/// A top-level `name = value` binding.
pub struct Binding {
    pub name: L<Vec<u8>>,
    pub value: L<Vec<u8>>,
}

/// What the rule slot map holds, by key in integer form.
pub uninterp spec fn rule_slots(m: RuleMap) -> Map<u64, Rule>;

/// What the edge slot map holds, by key in integer form.
pub uninterp spec fn edge_slots(m: EdgeMap) -> Map<u64, Edge>;

/// Relies on SlotMap::with_key: a new slot map holds nothing.
#[verifier::external_body]
fn new_rule_map() -> (m: RuleMap)
    ensures
        rule_slots(m).dom() == Set::<u64>::empty(),
{
    RuleMap { map: SlotMap::with_key() }
}

/// Relies on SlotMap::with_key: a new slot map holds nothing.
#[verifier::external_body]
fn new_edge_map() -> (m: EdgeMap)
    ensures
        edge_slots(m).dom() == Set::<u64>::empty(),
{
    EdgeMap { map: SlotMap::with_key() }
}

/// Relies on SlotMap::insert, which stores the value under a key that no live value
/// has and panics only when the map has u32::MAX slots, and on KeyData::as_ffi,
/// whose integer KeyData::from_ffi turns back into the same key.
#[verifier::external_body]
fn insert_rule(m: &mut RuleMap, v: Rule) -> (k: u64)
    requires
        rule_slots(*old(m)).dom().finite(),
        rule_slots(*old(m)).len() + 2 < u32::MAX,
    ensures
        !rule_slots(*old(m)).contains_key(k),
        rule_slots(*final(m)) == rule_slots(*old(m)).insert(k, v),
{
    m.map.insert(v).data().as_ffi()
}

/// Relies on SlotMap::insert, which stores the value under a key that no live value
/// has and panics only when the map has u32::MAX slots, and on KeyData::as_ffi,
/// whose integer KeyData::from_ffi turns back into the same key.
#[verifier::external_body]
fn insert_edge(m: &mut EdgeMap, v: Edge) -> (k: u64)
    requires
        edge_slots(*old(m)).dom().finite(),
        edge_slots(*old(m)).len() + 2 < u32::MAX,
    ensures
        !edge_slots(*old(m)).contains_key(k),
        edge_slots(*final(m)) == edge_slots(*old(m)).insert(k, v),
{
    m.map.insert(v).data().as_ffi()
}

/// Relies on SlotMap's indexing: the value stored under a live key.
#[verifier::external_body]
fn rule_at(m: &RuleMap, k: u64) -> (r: &Rule)
    requires
        rule_slots(*m).contains_key(k),
    ensures
        *r == rule_slots(*m)[k],
{
    &m.map[DefaultKey::from(KeyData::from_ffi(k))]
}

/// Relies on SlotMap's indexing: the value stored under a live key.
#[verifier::external_body]
fn edge_at(m: &EdgeMap, k: u64) -> (r: &Edge)
    requires
        edge_slots(*m).contains_key(k),
    ensures
        *r == edge_slots(*m)[k],
{
    &m.map[DefaultKey::from(KeyData::from_ffi(k))]
}

/// Relies on SlotMap::keys: each live key once.
#[verifier::external_body]
fn edge_key_list(m: &EdgeMap) -> (r: Vec<u64>)
    ensures
        r@.no_duplicates(),
        forall|k: u64| r@.contains(k) <==> edge_slots(*m).contains_key(k),
{
    m.map.keys().map(|k| k.data().as_ffi()).collect()
}


/// The bytes of `phony`, the rule that exists before any file is read.
pub open spec fn phony_name() -> Seq<u8> {
    seq![112u8, 104, 111, 110, 121]
}

/// The place given to what no file defines.
pub open spec fn loc_invalid() -> Location {
    Location { start: 0, stop: 0, source_id: SourceId(u32::MAX) }
}

/// `loc` spans a path literal of its file whose decoded text is `path`.
pub open spec fn path_at(srcs: Seq<Seq<u8>>, loc: Location, path: Seq<u8>) -> bool {
    &&& loc_valid(srcs, loc)
    &&& eval_string(srcs[loc.source_id.0 as int], loc.start as int, true) matches Ok((v, stop, _))
        && v == path && stop == loc.stop as int
}

/// The path index records `loc` under `path`.
pub open spec fn indexed(nodes: Seq<Node>, path: Seq<u8>, loc: Location) -> bool {
    exists|i: int|
        0 <= i < nodes.len() && (#[trigger] nodes[i]).path@ == path && nodes[i].locations@.contains(
            loc,
        )
}

/// A path of a build edge: written where it says, and in the index.
pub open spec fn edge_path_ok(srcs: Seq<Seq<u8>>, nodes: Seq<Node>, l: L<Vec<u8>>) -> bool {
    path_at(srcs, l.loc, l.elem@) && indexed(nodes, l.elem@, l.loc)
}

/// Entries that keep their paths and places while gaining places (or entries
/// added after them) keep everything they recorded.
proof fn lemma_indexed_grow(a: Seq<Node>, b: Seq<Node>)
    requires
        a.len() <= b.len(),
        forall|i: int|
            0 <= i < a.len() ==> (#[trigger] b[i]).path@ == a[i].path@ && a[i].locations@.len()
                <= b[i].locations@.len(),
        forall|i: int, j: int|
            0 <= i < a.len() && 0 <= j < a[i].locations@.len() ==> #[trigger] b[i].locations@[j]
                == a[i].locations@[j],
    ensures
        forall|p: Seq<u8>, l: Location| indexed(a, p, l) ==> #[trigger] indexed(b, p, l),
{
    assert forall|p: Seq<u8>, l: Location| indexed(a, p, l) implies #[trigger] indexed(b, p, l) by {
        let i = choose|i: int| 0 <= i < a.len() && (#[trigger] a[i]).path@ == p && a[i].locations@.contains(l);
        let j = choose|j: int| 0 <= j < a[i].locations@.len() && a[i].locations@[j] == l;
        assert(b[i].locations@[j] == l);
        assert(b[i].locations@.contains(l));
    }
}

/// An entry of the path index as a value: the path and its places in order.
pub type NodeView = (Seq<u8>, Seq<Location>);

pub open spec fn nodes_view(ns: Seq<Node>) -> Seq<NodeView> {
    ns.map_values(|n: Node| (n.path@, n.locations@))
}

/// The index of the first entry from `i` on whose path is `path`, or the length.
pub open spec fn find_path(nv: Seq<NodeView>, path: Seq<u8>, i: int) -> int
    decreases nv.len() - i,
{
    if i < 0 || i >= nv.len() {
        nv.len() as int
    } else if nv[i].0 == path {
        i
    } else {
        find_path(nv, path, i + 1)
    }
}

/// The index after recording `loc` under `path`: appended to the entry of the path,
/// or a new entry at the end.
pub open spec fn record_spec(nv: Seq<NodeView>, path: Seq<u8>, loc: Location) -> Seq<NodeView> {
    let i = find_path(nv, path, 0);
    if 0 <= i < nv.len() {
        nv.update(i, (nv[i].0, nv[i].1.push(loc)))
    } else {
        nv.push((path, seq![loc]))
    }
}

/// The index after recording each of `items`, in order.
pub open spec fn record_all(nv: Seq<NodeView>, items: Seq<(Seq<u8>, Location)>) -> Seq<NodeView>
    decreases items.len(),
{
    if items.len() == 0 {
        nv
    } else {
        record_spec(record_all(nv, items.drop_last()), items.last().0, items.last().1)
    }
}

/// Two places that cannot both be edited at once: in different files, or one ending
/// before the other starts.
pub open spec fn separate(a: Location, b: Location) -> bool {
    a.source_id != b.source_id || a.stop <= b.start || b.stop <= a.start
}

/// The parsed project: rules, build edges, the index of paths, top-level bindings and
/// the default target.
pub struct Data {
    rules: RuleMap,
    edges: EdgeMap,
    edge_count: usize,
    rules_by_name: Vec<(Vec<u8>, RuleKey)>,
    phony: RuleKey,
    nodes: Vec<Node>,
    vars: Vec<Binding>,
    default: Option<L<Vec<u8>>>,
}

impl Data {
    pub closed spec fn rule_map(&self) -> Map<u64, Rule> {
        rule_slots(self.rules)
    }

    pub closed spec fn edge_map(&self) -> Map<u64, Edge> {
        edge_slots(self.edges)
    }

    pub closed spec fn edge_total(&self) -> nat {
        self.edge_count as nat
    }

    /// The index from rule names to rules.
    pub closed spec fn names(&self) -> Seq<(Seq<u8>, u64)> {
        self.rules_by_name@.map_values(|p: (Vec<u8>, RuleKey)| (p.0@, p.1.0))
    }

    pub closed spec fn phony_key(&self) -> u64 {
        self.phony.0
    }

    pub closed spec fn node_seq(&self) -> Seq<Node> {
        self.nodes@
    }

    pub closed spec fn var_seq(&self) -> Seq<Binding> {
        self.vars@
    }

    pub closed spec fn default_target_spec(&self) -> Option<L<Vec<u8>>> {
        self.default
    }

    /// Rule names are unique; the name index and the rules agree; every rule but
    /// `phony` and every edge's rule reference name a place in `srcs` that holds the
    /// rule's name; paths in the index are unique and their places lie in `srcs`.
    pub open spec fn wf(&self, srcs: Seq<Seq<u8>>) -> bool {
        &&& self.rule_map().dom().finite()
        &&& self.rule_map().len() == self.names().len()
        &&& self.edge_map().dom().finite()
        &&& self.edge_map().len() == self.edge_total()
        &&& forall|i: int, j: int|
            0 <= i < j < self.names().len() ==> (#[trigger] self.names()[i]).0 != (
            #[trigger] self.names()[j]).0
        &&& forall|i: int|
            0 <= i < self.names().len() ==> {
                let (n, k) = #[trigger] self.names()[i];
                self.rule_map().contains_key(k) && self.rule_map()[k].name.elem@ == n
            }
        &&& forall|k: u64| #[trigger]
            self.rule_map().contains_key(k) ==> exists|i: int|
                0 <= i < self.names().len() && (#[trigger] self.names()[i]).1 == k
        &&& self.rule_map().contains_key(self.phony_key())
        &&& self.rule_map()[self.phony_key()].name.elem@ == phony_name()
        &&& self.rule_map()[self.phony_key()].name.loc == loc_invalid()
        &&& forall|k: u64| #[trigger]
            self.rule_map().contains_key(k) && k != self.phony_key() ==> {
                let r = self.rule_map()[k];
                loc_valid(srcs, r.name.loc) && loc_text(srcs, r.name.loc) == r.name.elem@
            }
        &&& forall|k: u64| #[trigger]
            self.edge_map().contains_key(k) ==> {
                let e = self.edge_map()[k];
                &&& self.rule_map().contains_key(e.rule.0)
                &&& loc_valid(srcs, e.rule_loc)
                &&& loc_text(srcs, e.rule_loc) == self.rule_map()[e.rule.0].name.elem@
            }
        &&& forall|i: int, j: int|
            0 <= i < j < self.node_seq().len() ==> (#[trigger] self.node_seq()[i]).path@ != (
            #[trigger] self.node_seq()[j]).path@
        &&& forall|i: int, j: int|
            0 <= i < self.node_seq().len() && 0 <= j < self.node_seq()[i].locations@.len()
                ==> path_at(srcs, #[trigger] self.node_seq()[i].locations@[j], self.node_seq()[i].path@)
        &&& forall|k: u64, j: int|
            self.edge_map().contains_key(k) && 0 <= j < self.edge_map()[k].outputs@.len()
                ==> edge_path_ok(srcs, self.node_seq(), #[trigger] self.edge_map()[k].outputs@[j])
        &&& forall|k: u64, j: int|
            self.edge_map().contains_key(k) && 0 <= j < self.edge_map()[k].inputs@.len()
                ==> edge_path_ok(srcs, self.node_seq(), #[trigger] self.edge_map()[k].inputs@[j])
        &&& forall|i: int, j: int|
            0 <= i < j < self.var_seq().len() ==> (#[trigger] self.var_seq()[i]).name.elem@ != (
            #[trigger] self.var_seq()[j]).name.elem@
        &&& forall|k: u64| #[trigger]
            self.rule_map().contains_key(k) && k != self.phony_key()
                ==> self.rule_map()[k].name.loc.start < self.rule_map()[k].name.loc.stop
        &&& forall|k: u64| #[trigger]
            self.edge_map().contains_key(k) ==> self.edge_map()[k].rule_loc.start
                < self.edge_map()[k].rule_loc.stop
        &&& forall|k: u64, e: u64|
            self.rule_map().contains_key(k) && k != self.phony_key() && self.edge_map().contains_key(e)
                ==> separate(#[trigger] self.rule_map()[k].name.loc, #[trigger] self.edge_map()[e].rule_loc)
        &&& forall|e1: u64, e2: u64|
            self.edge_map().contains_key(e1) && self.edge_map().contains_key(e2) && e1 != e2
                ==> separate(#[trigger] self.edge_map()[e1].rule_loc, #[trigger] self.edge_map()[e2].rule_loc)
        &&& forall|i: int, j: int|
            0 <= i < self.node_seq().len() && 0 <= j < self.node_seq()[i].locations@.len()
                ==> (#[trigger] self.node_seq()[i].locations@[j]).start < self.node_seq()[i].locations@[j].stop
        &&& forall|i: int, j1: int, j2: int|
            0 <= i < self.node_seq().len() && 0 <= j1 < j2 < self.node_seq()[i].locations@.len()
                ==> separate(
                #[trigger] self.node_seq()[i].locations@[j1],
                #[trigger] self.node_seq()[i].locations@[j2],
            )
    }

    /// The rule definitions (but `phony`'s) and rule references recorded in file `s`
    /// end at or before `bound`.
    pub open spec fn sites_before(&self, s: SourceId, bound: int) -> bool {
        &&& forall|k: u64| #[trigger]
            self.rule_map().contains_key(k) && k != self.phony_key()
                && self.rule_map()[k].name.loc.source_id == s ==> self.rule_map()[k].name.loc.stop
                <= bound
        &&& forall|k: u64| #[trigger]
            self.edge_map().contains_key(k) && self.edge_map()[k].rule_loc.source_id == s
                ==> self.edge_map()[k].rule_loc.stop <= bound
    }

    /// The places of the path index in file `s` end at or before `bound`.
    pub open spec fn nodes_before(&self, s: SourceId, bound: int) -> bool {
        forall|i: int, j: int|
            0 <= i < self.node_seq().len() && 0 <= j < self.node_seq()[i].locations@.len()
                && (#[trigger] self.node_seq()[i].locations@[j]).source_id == s
                ==> self.node_seq()[i].locations@[j].stop <= bound
    }

    /// Every place the model records in file `s` ends at or before `bound`.
    pub open spec fn places_before(&self, s: SourceId, bound: int) -> bool {
        self.sites_before(s, bound) && self.nodes_before(s, bound)
    }

    pub proof fn lemma_before_mono(&self, s: SourceId, b1: int, b2: int)
        requires
            self.places_before(s, b1),
            b1 <= b2,
        ensures
            self.places_before(s, b2),
    {
    }

    pub proof fn lemma_grow_trans(&self, b: &Data, c: &Data, id: SourceId, h1: int, h2: int)
        requires
            self.places_grow(b, id, h1),
            b.places_grow(c, id, h2),
            h1 <= h2,
        ensures
            self.places_grow(c, id, h2),
    {
        assert forall|s: SourceId, bound: int|
            self.places_before(s, bound) && (s != id || h2 <= bound) implies #[trigger] c.places_before(
            s,
            bound,
        ) by {
            assert(b.places_before(s, bound));
        }
    }

    pub proof fn lemma_grow_weaken(&self, b: &Data, id: SourceId, h1: int, h2: int)
        requires
            self.places_grow(b, id, h1),
            h1 <= h2,
        ensures
            self.places_grow(b, id, h2),
    {
    }

    pub proof fn lemma_grow_refl(&self, id: SourceId, h: int)
        ensures
            self.places_grow(self, id, h),
    {
    }

    /// What held of `self`'s places holds of `other`'s, except that file `id` may now
    /// have places up to `hi`.
    pub open spec fn places_grow(&self, other: &Data, id: SourceId, hi: int) -> bool {
        forall|s: SourceId, bound: int|
            self.places_before(s, bound) && (s != id || hi <= bound) ==> #[trigger] other.places_before(
                s,
                bound,
            )
    }

    /// Places in files loaded later do not change what holds of the earlier ones.
    pub proof fn lemma_wf_grow(&self, srcs: Seq<Seq<u8>>, t: Seq<u8>)
        requires
            self.wf(srcs),
        ensures
            self.wf(srcs.push(t)),
    {
        let s2 = srcs.push(t);
        assert forall|k: u64| #[trigger]
            self.rule_map().contains_key(k) && k != self.phony_key() implies {
            let r = self.rule_map()[k];
            loc_valid(s2, r.name.loc) && loc_text(s2, r.name.loc) == r.name.elem@
        } by {
            let r = self.rule_map()[k];
            assert(s2[r.name.loc.source_id.0 as int] == srcs[r.name.loc.source_id.0 as int]);
        }
        assert forall|k: u64| #[trigger] self.edge_map().contains_key(k) implies {
            let e = self.edge_map()[k];
            &&& self.rule_map().contains_key(e.rule.0)
            &&& loc_valid(s2, e.rule_loc)
            &&& loc_text(s2, e.rule_loc) == self.rule_map()[e.rule.0].name.elem@
        } by {
            let e = self.edge_map()[k];
            assert(s2[e.rule_loc.source_id.0 as int] == srcs[e.rule_loc.source_id.0 as int]);
        }
        assert forall|i: int, j: int|
            0 <= i < self.node_seq().len() && 0 <= j < self.node_seq()[i].locations@.len()
                implies path_at(s2, #[trigger] self.node_seq()[i].locations@[j], self.node_seq()[i].path@) by {
            let l = self.node_seq()[i].locations@[j];
            assert(s2[l.source_id.0 as int] == srcs[l.source_id.0 as int]);
        }
        assert forall|k: u64, j: int|
            self.edge_map().contains_key(k) && 0 <= j < self.edge_map()[k].outputs@.len()
                implies edge_path_ok(s2, self.node_seq(), #[trigger] self.edge_map()[k].outputs@[j]) by {
            let l = self.edge_map()[k].outputs@[j].loc;
            assert(s2[l.source_id.0 as int] == srcs[l.source_id.0 as int]);
        }
        assert forall|k: u64, j: int|
            self.edge_map().contains_key(k) && 0 <= j < self.edge_map()[k].inputs@.len()
                implies edge_path_ok(s2, self.node_seq(), #[trigger] self.edge_map()[k].inputs@[j]) by {
            let l = self.edge_map()[k].inputs@[j].loc;
            assert(s2[l.source_id.0 as int] == srcs[l.source_id.0 as int]);
        }
    }

    /// A model with only the rule `phony`.
    pub fn new() -> (r: Data)
        ensures
            forall|srcs: Seq<Seq<u8>>| r.wf(srcs),
            r.rule_map().dom() == set![r.phony_key()],
            r.edge_map().dom() == Set::<u64>::empty(),
            r.node_seq().len() == 0,
            r.var_seq().len() == 0,
            r.default_target_spec() is None,
    {
        let mut rules = new_rule_map();
        let name: Vec<u8> = vec![112, 104, 111, 110, 121];
        let key_name: Vec<u8> = vec![112, 104, 111, 110, 121];
        assert(name@ =~= phony_name());
        assert(key_name@ =~= phony_name());
        let invalid = Location { start: 0, stop: 0, source_id: SourceId(u32::MAX) };
        proof {
            assert(rule_slots(rules).dom().finite());
        }
        let k = insert_rule(&mut rules, Rule { name: L { elem: name, loc: invalid } });
        let mut rules_by_name: Vec<(Vec<u8>, RuleKey)> = Vec::new();
        rules_by_name.push((key_name, RuleKey(k)));
        let r = Data {
            rules,
            edges: new_edge_map(),
            edge_count: 0,
            rules_by_name,
            phony: RuleKey(k),
            nodes: Vec::new(),
            vars: Vec::new(),
            default: None,
        };
        assert(r.rule_map().dom() =~= set![k]);
        assert(r.edge_map().dom() =~= Set::<u64>::empty());
        assert(r.names()[0] == (phony_name(), k));
        assert forall|srcs: Seq<Seq<u8>>| r.wf(srcs) by {
            assert forall|kk: u64| #[trigger] r.rule_map().contains_key(kk) implies exists|i: int|
                0 <= i < r.names().len() && (#[trigger] r.names()[i]).1 == kk by {
                assert(r.names()[0].1 == kk);
            }
        }
        r
    }

    /// The rule named `name`, if there is one.
    pub fn rule_by_name(&self, name: &[u8]) -> (r: Option<RuleKey>)
        requires
            exists|srcs: Seq<Seq<u8>>| self.wf(srcs),
        ensures
            match r {
                Some(k) => self.rule_map().contains_key(k.0) && self.rule_map()[k.0].name.elem@
                    == name@,
                None => forall|k: u64| #[trigger]
                    self.rule_map().contains_key(k) ==> self.rule_map()[k].name.elem@ != name@,
            },
    {
        let mut i: usize = 0;
        while i < self.rules_by_name.len()
            invariant
                exists|srcs: Seq<Seq<u8>>| self.wf(srcs),
                0 <= i <= self.names().len(),
                self.names().len() == self.rules_by_name@.len(),
                forall|j: int| 0 <= j < i ==> (#[trigger] self.names()[j]).0 != name@,
            decreases self.rules_by_name@.len() - i,
        {
            if crate::lexer::same_bytes(self.rules_by_name[i].0.as_slice(), name) {
                assert(self.names()[i as int].0 == name@);
                return Some(self.rules_by_name[i].1);
            }
            i = i + 1;
        }
        proof {
            assert forall|k: u64| #[trigger]
                self.rule_map().contains_key(k) implies self.rule_map()[k].name.elem@ != name@ by {
                let j = choose|j: int| 0 <= j < self.names().len() && (#[trigger] self.names()[j]).1 == k;
                assert(self.names()[j].0 != name@);
            }
        }
        None
    }

    /// Registers a rule named `name`; a name already taken is refused.
    pub(crate) fn add_rule(&mut self, name: L<Vec<u8>>, srcs: Ghost<Seq<Seq<u8>>>) -> (r: Result<
        RuleKey,
        ParseError,
    >)
        requires
            old(self).wf(srcs@),
            loc_valid(srcs@, name.loc),
            loc_text(srcs@, name.loc) == name.elem@,
            name.loc.start < name.loc.stop,
            old(self).sites_before(name.loc.source_id, name.loc.start as int),
        ensures
            final(self).wf(srcs@),
            old(self).places_grow(final(self), name.loc.source_id, name.loc.stop as int),
            final(self).node_seq() == old(self).node_seq(),
            final(self).var_seq() == old(self).var_seq(),
            final(self).default_target_spec() == old(self).default_target_spec(),
            match r {
                Ok(k) => {
                    &&& !old(self).rule_map().contains_key(k.0)
                    &&& final(self).rule_map() == old(self).rule_map().insert(k.0, Rule { name })
                    &&& final(self).edge_map() == old(self).edge_map()
                    &&& forall|kk: u64| #[trigger]
                        old(self).rule_map().contains_key(kk)
                            ==> old(self).rule_map()[kk].name.elem@ != name.elem@
                    &&& old(self).rule_map().len() + 2 < u32::MAX
                },
                Err(e) => {
                    &&& final(self).rule_map() == old(self).rule_map()
                    &&& final(self).edge_map() == old(self).edge_map()
                    &&& (e.kind == ErrorKind::DuplicateRule && e.loc == name.loc && exists|kk: u64|
                        #[trigger] old(self).rule_map().contains_key(kk)
                            && old(self).rule_map()[kk].name.elem@ == name.elem@) || (e.kind
                        == ErrorKind::TooManyItems && e.loc == name.loc && (forall|kk: u64| #[trigger]
                        old(self).rule_map().contains_key(kk)
                            ==> old(self).rule_map()[kk].name.elem@ != name.elem@) && old(
                        self).rule_map().len() + 2 >= u32::MAX)
                },
            },
    {
        if let Some(k) = self.rule_by_name(name.elem.as_slice()) {
            return Err(ParseError { kind: ErrorKind::DuplicateRule, loc: name.loc });
        }
        if self.rules_by_name.len() >= (u32::MAX - 2) as usize {
            return Err(ParseError { kind: ErrorKind::TooManyItems, loc: name.loc });
        }
        let ghost old_names = self.names();
        let ghost old_map = self.rule_map();
        let mut key_name: Vec<u8> = Vec::new();
        crate::lexer::push_range(&mut key_name, name.elem.as_slice(), 0, name.elem.len());
        assert(key_name@ =~= name.elem@);
        let ghost rule_name = name;
        let k = insert_rule(&mut self.rules, Rule { name });
        self.rules_by_name.push((key_name, RuleKey(k)));
        proof {
            assert(self.names() =~= old_names.push((rule_name.elem@, k)));
            assert forall|kk: u64| #[trigger] self.rule_map().contains_key(kk) implies exists|i: int|
                0 <= i < self.names().len() && (#[trigger] self.names()[i]).1 == kk by {
                if kk == k {
                    assert(self.names()[old_names.len() as int].1 == kk);
                } else {
                    assert(old_map.contains_key(kk));
                    let i = choose|i: int| 0 <= i < old_names.len() && (#[trigger] old_names[i]).1 == kk;
                    assert(self.names()[i].1 == kk);
                }
            }
            assert(self.rule_map().dom() =~= old_map.dom().insert(k));
            assert(self.rule_map().len() == old_map.len() + 1);
            assert forall|a: int, b: int|
                0 <= a < b < self.names().len() implies (#[trigger] self.names()[a]).0 != (
                #[trigger] self.names()[b]).0 by {
                if b == old_names.len() {
                    let (n, kk) = old_names[a];
                    assert(old_map.contains_key(kk));
                }
            }
            assert forall|kk: u64| #[trigger] self.edge_map().contains_key(kk) implies {
                let e = self.edge_map()[kk];
                &&& self.rule_map().contains_key(e.rule.0)
                &&& loc_valid(srcs@, e.rule_loc)
                &&& loc_text(srcs@, e.rule_loc) == self.rule_map()[e.rule.0].name.elem@
            } by {
                let e = self.edge_map()[kk];
                assert(old_map.contains_key(e.rule.0));
            }
            assert forall|i: int|
                0 <= i < self.names().len() implies {
                let (n, kk) = #[trigger] self.names()[i];
                self.rule_map().contains_key(kk) && self.rule_map()[kk].name.elem@ == n
            } by {
                if i < old_names.len() {
                    assert(self.names()[i] == old_names[i]);
                }
            }
            assert(self.phony_key() != k);
            assert(self.rule_map()[self.phony_key()] == old_map[self.phony_key()]);
            assert forall|kk: u64| #[trigger]
                self.rule_map().contains_key(kk) && kk != self.phony_key() implies {
                let r = self.rule_map()[kk];
                loc_valid(srcs@, r.name.loc) && loc_text(srcs@, r.name.loc) == r.name.elem@
            } by {
                if kk != k {
                    assert(old_map.contains_key(kk));
                }
            }
            assert(self.var_seq() == old(self).var_seq());
            assert(self.node_seq() == old(self).node_seq());
            assert forall|kk: u64, e: u64|
                self.rule_map().contains_key(kk) && kk != self.phony_key() && self.edge_map().contains_key(e)
                    implies separate(self.rule_map()[kk].name.loc, self.edge_map()[e].rule_loc) by {
                if kk != k {
                    assert(old_map.contains_key(kk));
                } else {
                    assert(old(self).edge_map().contains_key(e));
                }
            }
            assert forall|kk: u64| #[trigger]
                self.rule_map().contains_key(kk) && kk != self.phony_key()
                    implies self.rule_map()[kk].name.loc.start < self.rule_map()[kk].name.loc.stop by {
                if kk != k {
                    assert(old_map.contains_key(kk));
                }
            }
            assert forall|s: SourceId, bound: int|
                old(self).places_before(s, bound) && (s != rule_name.loc.source_id
                    || rule_name.loc.stop <= bound) implies #[trigger] self.places_before(s, bound) by {
                assert forall|kk: u64| #[trigger]
                    self.rule_map().contains_key(kk) && kk != self.phony_key()
                        && self.rule_map()[kk].name.loc.source_id == s implies self.rule_map()[kk].name.loc.stop
                    <= bound by {
                    if kk != k {
                        assert(old_map.contains_key(kk));
                    }
                }
            }
        }
        Ok(RuleKey(k))
    }

    /// Adds `node`'s place to the index entry of its path.
    pub(crate) fn record_node(&mut self, node: &L<Vec<u8>>, srcs: Ghost<Seq<Seq<u8>>>)
        requires
            old(self).wf(srcs@),
            path_at(srcs@, node.loc, node.elem@),
            node.loc.start < node.loc.stop,
            old(self).nodes_before(node.loc.source_id, node.loc.start as int),
        ensures
            final(self).wf(srcs@),
            old(self).places_grow(final(self), node.loc.source_id, node.loc.stop as int),
            final(self).var_seq() == old(self).var_seq(),
            final(self).default_target_spec() == old(self).default_target_spec(),
            final(self).rule_map() == old(self).rule_map(),
            final(self).edge_map() == old(self).edge_map(),
            final(self).phony_key() == old(self).phony_key(),
            indexed(final(self).node_seq(), node.elem@, node.loc),
            nodes_view(final(self).node_seq()) == record_spec(
                nodes_view(old(self).node_seq()),
                node.elem@,
                node.loc,
            ),
            forall|p: Seq<u8>, l: Location|
                indexed(old(self).node_seq(), p, l) ==> #[trigger] indexed(
                    final(self).node_seq(),
                    p,
                    l,
                ),
    {
        let ghost old_nodes = self.nodes@;
        let ghost before = *self;
        let mut i: usize = 0;
        while i < self.nodes.len()
            invariant
                self.nodes@ == old_nodes,
                old_nodes == old(self).node_seq(),
                before == *old(self),
                *self == before,
                before.wf(srcs@),
                path_at(srcs@, node.loc, node.elem@),
                node.loc.start < node.loc.stop,
                before.nodes_before(node.loc.source_id, node.loc.start as int),
                0 <= i <= old_nodes.len(),
                forall|j: int| 0 <= j < i ==> (#[trigger] old_nodes[j]).path@ != node.elem@,
                find_path(nodes_view(old_nodes), node.elem@, 0) == find_path(
                    nodes_view(old_nodes),
                    node.elem@,
                    i as int,
                ),
            decreases old_nodes.len() - i,
        {
            if crate::lexer::same_bytes(self.nodes[i].path.as_slice(), node.elem.as_slice()) {
                self.nodes[i].locations.push(node.loc);
                proof {
                    let new_nodes = self.node_seq();
                    assert(new_nodes[i as int].locations@ == old_nodes[i as int].locations@.push(
                        node.loc,
                    ));
                    assert forall|a: int|
                        0 <= a < new_nodes.len() && a != i implies #[trigger] new_nodes[a]
                        == old_nodes[a] by {}
                    lemma_indexed_grow(old_nodes, new_nodes);
                    assert(nodes_view(new_nodes) =~= record_spec(
                        nodes_view(old_nodes),
                        node.elem@,
                        node.loc,
                    ));
                    assert(new_nodes[i as int].locations@[old_nodes[i as int].locations@.len() as int]
                        == node.loc);
                    assert(indexed(new_nodes, node.elem@, node.loc));
                    assert forall|a: int, b: int|
                        0 <= a < new_nodes.len() && 0 <= b < new_nodes[a].locations@.len() implies (
                        #[trigger] new_nodes[a].locations@[b]).start < new_nodes[a].locations@[b].stop by {
                        if a != i || b < old_nodes[a].locations@.len() {
                            assert(new_nodes[a].locations@[b] == old_nodes[a].locations@[b]);
                        }
                    }
                    assert forall|a: int, j1: int, j2: int|
                        0 <= a < new_nodes.len() && 0 <= j1 < j2 < new_nodes[a].locations@.len() implies separate(
                        #[trigger] new_nodes[a].locations@[j1],
                        #[trigger] new_nodes[a].locations@[j2],
                    ) by {
                        assert(new_nodes[a].locations@[j1] == old_nodes[a].locations@[j1]);
                        if a != i || j2 < old_nodes[a].locations@.len() {
                            assert(new_nodes[a].locations@[j2] == old_nodes[a].locations@[j2]);
                        }
                    }
                    assert forall|s: SourceId, bound: int|
                        before.places_before(s, bound) && (s != node.loc.source_id || node.loc.stop
                            <= bound) implies #[trigger] self.places_before(s, bound) by {
                        assert forall|a: int, b: int|
                            0 <= a < new_nodes.len() && 0 <= b < new_nodes[a].locations@.len()
                                && (#[trigger] new_nodes[a].locations@[b]).source_id == s
                                implies new_nodes[a].locations@[b].stop <= bound by {
                            if a != i || b < old_nodes[a].locations@.len() {
                                assert(new_nodes[a].locations@[b] == old_nodes[a].locations@[b]);
                            }
                        }
                    }
                    self.lemma_nodes_grown(&before, srcs@);
                }
                return;
            }
            i = i + 1;
        }
        let mut path: Vec<u8> = Vec::new();
        crate::lexer::push_range(&mut path, node.elem.as_slice(), 0, node.elem.len());
        assert(path@ =~= node.elem@);
        let mut locations: Vec<Location> = Vec::new();
        locations.push(node.loc);
        self.nodes.push(Node { path, locations });
        proof {
            let new_nodes = self.node_seq();
            assert forall|a: int| 0 <= a < old_nodes.len() implies #[trigger] new_nodes[a]
                == old_nodes[a] by {}
            lemma_indexed_grow(old_nodes, new_nodes);
            assert(new_nodes[old_nodes.len() as int].locations@ =~= seq![node.loc]);
            assert(nodes_view(new_nodes) =~= record_spec(nodes_view(old_nodes), node.elem@, node.loc));
            assert(new_nodes[old_nodes.len() as int].locations@[0] == node.loc);
            assert(indexed(new_nodes, node.elem@, node.loc));
                assert forall|a: int, b: int|
                    0 <= a < new_nodes.len() && 0 <= b < new_nodes[a].locations@.len() implies (
                    #[trigger] new_nodes[a].locations@[b]).start < new_nodes[a].locations@[b].stop by {
                    if a < old_nodes.len() {
                        assert(new_nodes[a].locations@[b] == old_nodes[a].locations@[b]);
                    }
                }
                assert forall|a: int, j1: int, j2: int|
                    0 <= a < new_nodes.len() && 0 <= j1 < j2 < new_nodes[a].locations@.len() implies separate(
                    #[trigger] new_nodes[a].locations@[j1],
                    #[trigger] new_nodes[a].locations@[j2],
                ) by {
                    if a < old_nodes.len() {
                        assert(new_nodes[a] == old_nodes[a]);
                    }
                }
                assert forall|s: SourceId, bound: int|
                    before.places_before(s, bound) && (s != node.loc.source_id || node.loc.stop
                        <= bound) implies #[trigger] self.places_before(s, bound) by {
                    assert forall|a: int, b: int|
                        0 <= a < new_nodes.len() && 0 <= b < new_nodes[a].locations@.len()
                            && (#[trigger] new_nodes[a].locations@[b]).source_id == s
                            implies new_nodes[a].locations@[b].stop <= bound by {
                        if a < old_nodes.len() {
                            assert(new_nodes[a].locations@[b] == old_nodes[a].locations@[b]);
                        }
                    }
                }
                self.lemma_nodes_grown(&before, srcs@);
        }
    }

    /// Keeping the rest, a path index that grows from a well-formed one by places of
    /// their paths keeps the model well formed.
    proof fn lemma_nodes_grown(&self, before: &Data, srcs: Seq<Seq<u8>>)
        requires
            before.wf(srcs),
            self.rule_map() == before.rule_map(),
            self.edge_map() == before.edge_map(),
            self.edge_total() == before.edge_total(),
            self.names() == before.names(),
            self.phony_key() == before.phony_key(),
            self.var_seq() == before.var_seq(),
            forall|i: int, j: int|
                0 <= i < self.node_seq().len() && 0 <= j < self.node_seq()[i].locations@.len()
                    ==> path_at(srcs, #[trigger] self.node_seq()[i].locations@[j], self.node_seq()[i].path@),
            forall|i: int, j: int|
                0 <= i < j < self.node_seq().len() ==> (#[trigger] self.node_seq()[i]).path@ != (
                #[trigger] self.node_seq()[j]).path@,
            forall|p: Seq<u8>, l: Location|
                indexed(before.node_seq(), p, l) ==> #[trigger] indexed(self.node_seq(), p, l),
            forall|i: int, j: int|
                0 <= i < self.node_seq().len() && 0 <= j < self.node_seq()[i].locations@.len()
                    ==> (#[trigger] self.node_seq()[i].locations@[j]).start < self.node_seq()[i].locations@[j].stop,
            forall|i: int, j1: int, j2: int|
                0 <= i < self.node_seq().len() && 0 <= j1 < j2 < self.node_seq()[i].locations@.len()
                    ==> separate(
                    #[trigger] self.node_seq()[i].locations@[j1],
                    #[trigger] self.node_seq()[i].locations@[j2],
                ),
        ensures
            self.wf(srcs),
    {
        before.lemma_wf_same(self, srcs);
        assert forall|k: u64| #[trigger] self.rule_map().contains_key(k) implies exists|i: int|
            0 <= i < self.names().len() && (#[trigger] self.names()[i]).1 == k by {
            let i = choose|i: int| 0 <= i < before.names().len() && (#[trigger] before.names()[i]).1 == k;
            assert(self.names()[i].1 == k);
        }
        assert forall|k: u64, j: int|
            self.edge_map().contains_key(k) && 0 <= j < self.edge_map()[k].outputs@.len()
                implies edge_path_ok(srcs, self.node_seq(), #[trigger] self.edge_map()[k].outputs@[j]) by {
            let l = self.edge_map()[k].outputs@[j];
            assert(edge_path_ok(srcs, before.node_seq(), before.edge_map()[k].outputs@[j]));
            assert(indexed(self.node_seq(), l.elem@, l.loc));
        }
        assert forall|k: u64, j: int|
            self.edge_map().contains_key(k) && 0 <= j < self.edge_map()[k].inputs@.len()
                implies edge_path_ok(srcs, self.node_seq(), #[trigger] self.edge_map()[k].inputs@[j]) by {
            let l = self.edge_map()[k].inputs@[j];
            assert(edge_path_ok(srcs, before.node_seq(), before.edge_map()[k].inputs@[j]));
            assert(indexed(self.node_seq(), l.elem@, l.loc));
        }
    }

    /// Well-formedness depends on the rules, edges, name index, path index and
    /// bindings alone.
    proof fn lemma_wf_same(&self, other: &Data, srcs: Seq<Seq<u8>>)
        requires
            self.wf(srcs),
            other.rule_map() == self.rule_map(),
            other.edge_map() == self.edge_map(),
            other.edge_total() == self.edge_total(),
            other.names() == self.names(),
            other.phony_key() == self.phony_key(),
        ensures
            other.node_seq() == self.node_seq() && other.var_seq() == self.var_seq() ==> other.wf(
                srcs,
            ),
    {
        assert forall|k: u64| #[trigger] other.rule_map().contains_key(k) implies exists|i: int|
            0 <= i < other.names().len() && (#[trigger] other.names()[i]).1 == k by {
            assert(self.rule_map().contains_key(k));
            let i = choose|i: int| 0 <= i < self.names().len() && (#[trigger] self.names()[i]).1 == k;
            assert(other.names()[i].1 == k);
        }
    }

    /// Registers a build edge.
    pub(crate) fn add_edge(&mut self, edge: Edge, srcs: Ghost<Seq<Seq<u8>>>) -> (r: Result<
        EdgeKey,
        ParseError,
    >)
        requires
            old(self).wf(srcs@),
            old(self).rule_map().contains_key(edge.rule.0),
            loc_valid(srcs@, edge.rule_loc),
            loc_text(srcs@, edge.rule_loc) == old(self).rule_map()[edge.rule.0].name.elem@,
            edge.rule_loc.start < edge.rule_loc.stop,
            old(self).sites_before(edge.rule_loc.source_id, edge.rule_loc.start as int),
            forall|j: int|
                0 <= j < edge.outputs@.len() ==> edge_path_ok(
                    srcs@,
                    old(self).node_seq(),
                    #[trigger] edge.outputs@[j],
                ),
            forall|j: int|
                0 <= j < edge.inputs@.len() ==> edge_path_ok(
                    srcs@,
                    old(self).node_seq(),
                    #[trigger] edge.inputs@[j],
                ),
        ensures
            final(self).wf(srcs@),
            old(self).places_grow(final(self), edge.rule_loc.source_id, edge.rule_loc.stop as int),
            final(self).node_seq() == old(self).node_seq(),
            final(self).var_seq() == old(self).var_seq(),
            final(self).default_target_spec() == old(self).default_target_spec(),
            final(self).rule_map() == old(self).rule_map(),
            final(self).phony_key() == old(self).phony_key(),
            match r {
                Ok(k) => {
                    &&& !old(self).edge_map().contains_key(k.0)
                    &&& final(self).edge_map() == old(self).edge_map().insert(k.0, edge)
                    &&& old(self).edge_map().len() + 2 < u32::MAX
                },
                Err(e) => {
                    &&& e == (ParseError { kind: ErrorKind::TooManyItems, loc: edge.rule_loc })
                    &&& final(self).edge_map() == old(self).edge_map()
                    &&& old(self).edge_map().len() + 2 >= u32::MAX
                },
            },
    {
        if self.edge_count >= (u32::MAX - 2) as usize {
            return Err(ParseError { kind: ErrorKind::TooManyItems, loc: edge.rule_loc });
        }
        let ghost old_edges = self.edge_map();
        let ghost e0 = edge;
        let ghost before = *self;
        let k = insert_edge(&mut self.edges, edge);
        self.edge_count = self.edge_count + 1;
        proof {
            assert forall|kk: u64| #[trigger] self.rule_map().contains_key(kk) implies exists|i: int|
                0 <= i < self.names().len() && (#[trigger] self.names()[i]).1 == kk by {
                let i = choose|i: int| 0 <= i < before.names().len() && (#[trigger] before.names()[i]).1 == kk;
                assert(self.names()[i].1 == kk);
            }
            assert(self.edge_map().dom() =~= old_edges.dom().insert(k));
            assert(self.edge_map().len() == old_edges.len() + 1);
            assert forall|kk: u64| #[trigger] self.edge_map().contains_key(kk) implies {
                let e = self.edge_map()[kk];
                &&& self.rule_map().contains_key(e.rule.0)
                &&& loc_valid(srcs@, e.rule_loc)
                &&& loc_text(srcs@, e.rule_loc) == self.rule_map()[e.rule.0].name.elem@
            } by {
                if kk != k {
                    assert(old_edges.contains_key(kk));
                }
            }
            assert(self.node_seq() == before.node_seq());
            assert(self.var_seq() == before.var_seq());
            assert(self.names() == before.names());
            assert(self.rule_map() == before.rule_map());
            assert(self.phony_key() == before.phony_key());
            assert(self.edge_total() == before.edge_total() + 1);
            assert forall|kk: u64, e: u64|
                self.rule_map().contains_key(kk) && kk != self.phony_key() && self.edge_map().contains_key(e)
                    implies separate(self.rule_map()[kk].name.loc, self.edge_map()[e].rule_loc) by {
                if e != k {
                    assert(old_edges.contains_key(e));
                }
            }
            assert forall|e1: u64, e2: u64|
                self.edge_map().contains_key(e1) && self.edge_map().contains_key(e2) && e1 != e2
                    implies separate(self.edge_map()[e1].rule_loc, self.edge_map()[e2].rule_loc) by {
                if e1 != k {
                    assert(old_edges.contains_key(e1));
                }
                if e2 != k {
                    assert(old_edges.contains_key(e2));
                }
            }
            assert forall|kk: u64| #[trigger]
                self.edge_map().contains_key(kk) implies self.edge_map()[kk].rule_loc.start
                < self.edge_map()[kk].rule_loc.stop by {
                if kk != k {
                    assert(old_edges.contains_key(kk));
                }
            }
            assert forall|s: SourceId, bound: int|
                before.places_before(s, bound) && (s != e0.rule_loc.source_id || e0.rule_loc.stop
                    <= bound) implies #[trigger] self.places_before(s, bound) by {
                assert forall|kk: u64| #[trigger]
                    self.edge_map().contains_key(kk) && self.edge_map()[kk].rule_loc.source_id == s
                        implies self.edge_map()[kk].rule_loc.stop <= bound by {
                    if kk != k {
                        assert(old_edges.contains_key(kk));
                    }
                }
            }
            assert forall|kk: u64, j: int|
                self.edge_map().contains_key(kk) && 0 <= j < self.edge_map()[kk].outputs@.len()
                    implies edge_path_ok(srcs@, self.node_seq(), #[trigger] self.edge_map()[kk].outputs@[j]) by {
                if kk != k {
                    assert(old_edges.contains_key(kk));
                    assert(edge_path_ok(srcs@, before.node_seq(), old_edges[kk].outputs@[j]));
                }
            }
            assert forall|kk: u64, j: int|
                self.edge_map().contains_key(kk) && 0 <= j < self.edge_map()[kk].inputs@.len()
                    implies edge_path_ok(srcs@, self.node_seq(), #[trigger] self.edge_map()[kk].inputs@[j]) by {
                if kk != k {
                    assert(old_edges.contains_key(kk));
                    assert(edge_path_ok(srcs@, before.node_seq(), old_edges[kk].inputs@[j]));
                }
            }
        }
        Ok(EdgeKey(k))
    }

    /// Adds a top-level binding; a name already bound is refused.
    pub(crate) fn add_var(&mut self, name: L<Vec<u8>>, value: L<Vec<u8>>, srcs: Ghost<
        Seq<Seq<u8>>,
    >) -> (r: Result<(), ParseError>)
        requires
            old(self).wf(srcs@),
        ensures
            final(self).wf(srcs@),
            final(self).node_seq() == old(self).node_seq(),
            r.is_err() ==> final(self).var_seq() == old(self).var_seq(),
            final(self).default_target_spec() == old(self).default_target_spec(),
            final(self).rule_map() == old(self).rule_map(),
            final(self).edge_map() == old(self).edge_map(),
            final(self).phony_key() == old(self).phony_key(),
            match r {
                Ok(_) => {
                    &&& forall|i: int|
                        0 <= i < old(self).var_seq().len() ==> (#[trigger] old(self).var_seq()[i]).name.elem@ != name.elem@
                    &&& final(self).var_seq().len() == old(self).var_seq().len() + 1
                    &&& final(self).var_seq().subrange(0, old(self).var_seq().len() as int) == old(self).var_seq()
                    &&& final(self).var_seq().last().name == name
                    &&& final(self).var_seq().last().value == value
                },
                Err(e) => e == (ParseError { kind: ErrorKind::DuplicateVariable, loc: name.loc })
                    && exists|i: int|
                    0 <= i < old(self).var_seq().len() && (#[trigger] old(self).var_seq()[i]).name.elem@ == name.elem@,
            },
    {
        let ghost old_vars = self.vars@;
        let mut i: usize = 0;
        while i < self.vars.len()
            invariant
                self.vars@ == old_vars,
                self.wf(srcs@),
                old(self).wf(srcs@),
                self.rule_map() == old(self).rule_map(),
                self.edge_map() == old(self).edge_map(),
                self.phony_key() == old(self).phony_key(),
                old_vars == old(self).var_seq(),
                0 <= i <= old_vars.len(),
                forall|j: int| 0 <= j < i ==> (#[trigger] old_vars[j]).name.elem@ != name.elem@,
            decreases old_vars.len() - i,
        {
            if crate::lexer::same_bytes(self.vars[i].name.elem.as_slice(), name.elem.as_slice()) {
                return Err(ParseError { kind: ErrorKind::DuplicateVariable, loc: name.loc });
            }
            i = i + 1;
        }
        let ghost n = name;
        let ghost before = *self;
        self.vars.push(Binding { name, value });
        proof {
            assert(self.var_seq().subrange(0, old_vars.len() as int) =~= old_vars);
            before.lemma_wf_same(self, srcs@);
            assert forall|a: int, b: int|
                0 <= a < b < self.var_seq().len() implies (#[trigger] self.var_seq()[a]).name.elem@
                != (#[trigger] self.var_seq()[b]).name.elem@ by {
                assert(self.var_seq()[a] == old_vars[a]);
                if b < old_vars.len() {
                    assert(self.var_seq()[b] == old_vars[b]);
                }
            }
        }
        Ok(())
    }

    /// Sets the default target; a second one is refused.
    pub(crate) fn set_default(&mut self, path: L<Vec<u8>>, srcs: Ghost<Seq<Seq<u8>>>) -> (r: Result<
        (),
        ParseError,
    >)
        requires
            old(self).wf(srcs@),
        ensures
            final(self).wf(srcs@),
            final(self).node_seq() == old(self).node_seq(),
            r.is_err() ==> final(self).default_target_spec() == old(self).default_target_spec(),
            final(self).var_seq() == old(self).var_seq(),
            final(self).rule_map() == old(self).rule_map(),
            final(self).edge_map() == old(self).edge_map(),
            final(self).phony_key() == old(self).phony_key(),
            match r {
                Ok(_) => old(self).default_target_spec() is None
                    && final(self).default_target_spec() == Some(path),
                Err(e) => old(self).default_target_spec() is Some && e == (ParseError {
                    kind: ErrorKind::DuplicateDefault,
                    loc: path.loc,
                }),
            },
    {
        if self.default.is_some() {
            return Err(ParseError { kind: ErrorKind::DuplicateDefault, loc: path.loc });
        }
        let ghost before = *self;
        self.default = Some(path);
        proof {
            before.lemma_wf_same(self, srcs@);
        }
        Ok(())
    }

    /// The rule `phony`, which every model starts with.
    pub fn phony(&self) -> (r: RuleKey)
        ensures
            r.0 == self.phony_key(),
    {
        self.phony
    }

    pub fn rule(&self, key: RuleKey) -> (r: &Rule)
        requires
            self.rule_map().contains_key(key.0),
        ensures
            *r == self.rule_map()[key.0],
    {
        rule_at(&self.rules, key.0)
    }

    pub fn edge(&self, key: EdgeKey) -> (r: &Edge)
        requires
            self.edge_map().contains_key(key.0),
        ensures
            *r == self.edge_map()[key.0],
    {
        edge_at(&self.edges, key.0)
    }

    /// The handles of all edges, each once.
    pub fn edge_keys(&self) -> (r: Vec<EdgeKey>)
        ensures
            r@.len() == self.edge_map().len() || !self.edge_map().dom().finite(),
            forall|i: int, j: int| 0 <= i < j < r@.len() ==> r@[i] != r@[j],
            forall|k: u64| self.edge_map().contains_key(k) <==> exists|i: int|
                0 <= i < r@.len() && (#[trigger] r@[i]).0 == k,
    {
        let raw = edge_key_list(&self.edges);
        let mut r: Vec<EdgeKey> = Vec::new();
        let mut i: usize = 0;
        while i < raw.len()
            invariant
                0 <= i <= raw@.len(),
                r@.len() == i,
                forall|j: int| 0 <= j < i ==> (#[trigger] r@[j]).0 == raw@[j],
            decreases raw@.len() - i,
        {
            r.push(EdgeKey(raw[i]));
            i = i + 1;
        }
        proof {
            assert forall|k: u64| self.edge_map().contains_key(k) implies exists|i: int|
                0 <= i < r@.len() && (#[trigger] r@[i]).0 == k by {
                assert(raw@.contains(k));
                let i = choose|i: int| 0 <= i < raw@.len() && raw@[i] == k;
                assert(r@[i].0 == k);
            }
            assert forall|k: u64| (exists|i: int| 0 <= i < r@.len() && (#[trigger] r@[i]).0 == k)
                implies self.edge_map().contains_key(k) by {
                let i = choose|i: int| 0 <= i < r@.len() && (#[trigger] r@[i]).0 == k;
                assert(raw@[i] == k);
                assert(raw@.contains(k));
            }
            assert forall|a: int, b: int| 0 <= a < b < r@.len() implies r@[a] != r@[b] by {
                assert(raw@[a] != raw@[b]);
            }
            if self.edge_map().dom().finite() {
                assert(raw@.to_set() =~= self.edge_map().dom());
                raw@.unique_seq_to_set();
            }
        }
        r
    }

    /// The number of edges.
    pub fn edge_count(&self) -> (r: usize)
        requires
            exists|srcs: Seq<Seq<u8>>| self.wf(srcs),
        ensures
            r == self.edge_map().len(),
    {
        self.edge_count
    }

    /// The number of rules, `phony` included.
    pub fn rule_count(&self) -> (r: usize)
        requires
            exists|srcs: Seq<Seq<u8>>| self.wf(srcs),
        ensures
            r == self.rule_map().len(),
    {
        self.rules_by_name.len()
    }

    /// The path index, in the order in which paths first appeared.
    pub fn nodes(&self) -> (r: &Vec<Node>)
        ensures
            r@ == self.node_seq(),
    {
        &self.nodes
    }

    /// Every place where `path` was written, if it was.
    pub fn node(&self, path: &[u8]) -> (r: Option<&Node>)
        ensures
            match r {
                Some(n) => exists|i: int|
                    0 <= i < self.node_seq().len() && *n == #[trigger] self.node_seq()[i]
                        && n.path@ == path@,
                None => forall|i: int|
                    0 <= i < self.node_seq().len() ==> (#[trigger] self.node_seq()[i]).path@
                        != path@,
            },
    {
        let mut i: usize = 0;
        while i < self.nodes.len()
            invariant
                0 <= i <= self.node_seq().len(),
                forall|j: int| 0 <= j < i ==> (#[trigger] self.node_seq()[j]).path@ != path@,
            decreases self.node_seq().len() - i,
        {
            if crate::lexer::same_bytes(self.nodes[i].path.as_slice(), path) {
                return Some(&self.nodes[i]);
            }
            i = i + 1;
        }
        None
    }

    /// The top-level bindings, in file order.
    pub fn vars(&self) -> (r: &Vec<Binding>)
        ensures
            r@ == self.var_seq(),
    {
        &self.vars
    }

    pub fn default_target(&self) -> (r: &Option<L<Vec<u8>>>)
        ensures
            *r == self.default_target_spec(),
    {
        &self.default
    }
}


} // verus!
