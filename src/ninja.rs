use vstd::prelude::*;

use crate::data::{loc_invalid, phony_name, Data};
use crate::error::{ErrorKind, ParseError};
use crate::lexer::{wf_text, Location, SourceId, L};
use crate::parser::{rule_error_explained, items_spec, parse_source, state_of, ParseState, PathItem};
use crate::source::{Source, SourceManager};

verus! {

/// A loaded project: the files read and the model parsed from them.
pub struct Ninja {
    sm: SourceManager,
    data: Data,
}

impl Ninja {
    /// The texts of the loaded files, sentinels included, by id.
    pub closed spec fn texts(&self) -> Seq<Seq<u8>> {
        self.sm.texts()
    }

    /// The paths the loaded files were read from, by id.
    pub closed spec fn paths(&self) -> Seq<Seq<char>> {
        self.sm.paths()
    }

    pub closed spec fn model(&self) -> Data {
        self.data
    }

    pub closed spec fn wf(&self) -> bool {
        self.sm.wf() && self.data.wf(self.sm.texts())
    }

    pub proof fn lemma_wf(&self)
        requires
            self.wf(),
        ensures
            self.model().wf(self.texts()),
            self.texts().len() < u32::MAX,
            forall|i: int| 0 <= i < self.texts().len() ==> wf_text(#[trigger] self.texts()[i]),
    {
        self.sm.lemma_wf();
    }

    pub fn data(&self) -> (r: &Data)
        ensures
            *r == self.model(),
    {
        &self.data
    }

    /// The file with id `id`, if one was loaded.
    pub fn source(&self, id: SourceId) -> (r: Option<&Source>)
        requires
            self.wf(),
        ensures
            match r {
                Some(s) => (id.0 as int) < self.texts().len() && s.id == id && s.text@
                    == self.texts()[id.0 as int] && s.path@ == self.paths()[id.0 as int],
                None => id.0 as int >= self.texts().len(),
            },
    {
        if (id.0 as usize) < self.sm.len() {
            Some(self.sm.get(id))
        } else {
            None
        }
    }

    pub fn source_count(&self) -> (r: usize)
        requires
            self.wf(),
        ensures
            r == self.texts().len(),
    {
        self.sm.len()
    }
}

/// Parsing on from `frames` (innermost last) until every file is done or a statement
/// names another file: that path as read, the frames then, and the state then.
pub open spec fn resume_spec(
    texts: Seq<Seq<u8>>,
    frames: Seq<(SourceId, usize)>,
    st: ParseState,
) -> Result<(Option<PathItem>, Seq<(SourceId, usize)>, ParseState), ParseError>
    decreases frames.len(),
{
    if frames.len() == 0 {
        Ok((None, frames, st))
    } else {
        let (id, off) = frames.last();
        match items_spec(texts[id.0 as int], id, off as int, st) {
            Err(e) => Err(e),
            Ok((Some(item), q, st2)) => Ok(
                (Some(item), frames.update(frames.len() - 1, (id, q as usize)), st2),
            ),
            Ok((None, _, st2)) => resume_spec(texts, frames.drop_last(), st2),
        }
    }
}

/// The model of a new session: only the rule `phony`, nothing else.
pub open spec fn initial_state() -> ParseState {
    (
        set![phony_name()],
        Set::empty(),
        false,
        1,
        0,
        set![(phony_name(), loc_invalid())],
        Set::empty(),
        Seq::empty(),
        Seq::empty(),
        None,
    )
}

/// Loading is a function of the files read: two sessions that hold the same texts,
/// have the same files pending and the same model contents (rule names and where they
/// are defined, edges, path index with its places, bindings, default, counts) reach
/// the same outcome, frames and model contents when parsing goes on.
pub proof fn lemma_load_deterministic(a: &Session, b: &Session)
    requires
        a.texts() == b.texts(),
        a.frames() == b.frames(),
        state_of(&a.model()) == state_of(&b.model()),
    ensures
        resume_spec(a.texts(), a.frames(), state_of(&a.model())) == resume_spec(
            b.texts(),
            b.frames(),
            state_of(&b.model()),
        ),
{
}

/// What `Session::step` did.
pub enum Progress {
    /// The file being parsed names another file: its path, as written.
    Named(L<Vec<u8>>),
    /// The file being parsed is done.
    FileDone,
    /// No file is left to parse.
    Finished,
}

/// A load in progress. Parsing stops at each statement that names another file;
/// the caller reads that file and hands it to `open`, and parsing goes on with it
/// before the rest of the file that named it.
pub struct Session {
    sm: SourceManager,
    data: Data,
    /// Files whose parse is not done: id and where to go on, innermost last.
    stack: Vec<(SourceId, usize)>,
}

impl Session {
    pub closed spec fn texts(&self) -> Seq<Seq<u8>> {
        self.sm.texts()
    }

    /// The paths the loaded files were read from, by id.
    pub closed spec fn paths(&self) -> Seq<Seq<char>> {
        self.sm.paths()
    }

    pub closed spec fn model(&self) -> Data {
        self.data
    }

    /// The number of files whose parse is not done.
    pub closed spec fn pending(&self) -> nat {
        self.stack@.len()
    }

    pub closed spec fn wf(&self) -> bool {
        &&& self.sm.wf()
        &&& self.data.wf(self.sm.texts())
        &&& forall|i: int|
            0 <= i < self.stack@.len() ==> {
                let (id, off) = #[trigger] self.stack@[i];
                (id.0 as int) < self.sm.texts().len() && (off as int) < self.sm.texts()[id.0 as int].len()
            }
        &&& forall|i: int|
            0 <= i < self.stack@.len() ==> self.data.places_before(
                (#[trigger] self.stack@[i]).0,
                self.stack@[i].1 as int,
            )
        &&& forall|i: int, j: int|
            0 <= i < j < self.stack@.len() ==> (#[trigger] self.stack@[i]).0.0 < (
            #[trigger] self.stack@[j]).0.0
    }

    pub fn new() -> (r: Session)
        ensures
            r.wf(),
            r.texts().len() == 0,
            r.pending() == 0,
            r.frames().len() == 0,
            state_of(&r.model()) == initial_state(),
    {
        let data = Data::new();
        let sm = SourceManager::new();
        let r = Session { sm, data, stack: Vec::new() };
        proof {
            let m = r.data.rule_map();
            let k = r.data.phony_key();
            assert(r.data.wf(Seq::<Seq<u8>>::empty()));
            assert(m.dom().contains(k));
            assert forall|n: Seq<u8>| crate::parser::rule_names(m).contains(n) == set![
                phony_name(),
            ].contains(n) by {
                if crate::parser::rule_names(m).contains(n) {
                    let kk = choose|kk: u64| m.contains_key(kk) && #[trigger] m[kk].name.elem@ == n;
                    assert(m.dom().contains(kk));
                }
                if n == phony_name() {
                    assert(m.contains_key(k) && m[k].name.elem@ == n);
                }
            }
            assert(crate::parser::rule_names(m) =~= set![phony_name()]);
            assert forall|x: (Seq<u8>, Location)| crate::parser::rule_entries(m).contains(x) == set![
                (phony_name(), loc_invalid()),
            ].contains(x) by {
                if crate::parser::rule_entries(m).contains(x) {
                    let kk = choose|kk: u64|
                        m.contains_key(kk) && #[trigger] m[kk].name.elem@ == x.0 && m[kk].name.loc == x.1;
                    assert(m.dom().contains(kk));
                }
                if x == (phony_name(), loc_invalid()) {
                    assert(m.contains_key(k) && m[k].name.elem@ == x.0 && m[k].name.loc == x.1);
                }
            }
            assert(crate::parser::rule_entries(m) =~= set![(phony_name(), loc_invalid())]);
            assert(crate::parser::edges_view(r.data.edge_map()) =~= Set::empty());
            assert(crate::parser::var_names(r.data.var_seq()) =~= Set::empty());
            assert(crate::data::nodes_view(r.data.node_seq()) =~= Seq::empty());
            assert(crate::parser::vars_view(r.data.var_seq()) =~= Seq::empty());
            assert(m.dom().len() == 1);
        }
        r
    }

    /// The file with id `id`, if one was loaded.
    pub fn source(&self, id: SourceId) -> (r: Option<&Source>)
        requires
            self.wf(),
        ensures
            match r {
                Some(s) => (id.0 as int) < self.texts().len() && s.id == id && s.text@
                    == self.texts()[id.0 as int] && s.path@ == self.paths()[id.0 as int],
                None => id.0 as int >= self.texts().len(),
            },
    {
        if (id.0 as usize) < self.sm.len() {
            Some(self.sm.get(id))
        } else {
            None
        }
    }

    /// Stores the text of the file read from `path` and makes it the next to parse.
    pub fn open(&mut self, path: String, text: &[u8]) -> (r: Result<SourceId, ParseError>)
        requires
            old(self).wf(),
        ensures
            final(self).wf(),
            r.is_ok() <==> ((forall|i: int| 0 <= i < text@.len() ==> text@[i] != 0) && old(
                self).texts().len() + 1 < u32::MAX && text@.len() + 1 < usize::MAX),
            state_of(&final(self).model()) == state_of(&old(self).model()),
            match r {
                Ok(id) => {
                    &&& id.0 == old(self).texts().len()
                    &&& final(self).texts() == old(self).texts().push(text@.push(0))
                    &&& final(self).paths() == old(self).paths().push(path@)
                    &&& final(self).frames() == old(self).frames().push((id, 0usize))
                },
                Err(e) => {
                    &&& final(self).texts() == old(self).texts()
                    &&& final(self).frames() == old(self).frames()
                    &&& e.kind == ErrorKind::NulInSource ==> exists|i: int|
                        0 <= i < text@.len() && text@[i] == 0
                    &&& e.kind == ErrorKind::TooManyItems ==> old(self).texts().len() + 1
                        >= u32::MAX || text@.len() + 1 >= usize::MAX
                    &&& (e.kind == ErrorKind::NulInSource || e.kind == ErrorKind::TooManyItems)
                },
            },
    {
        let ghost before = self.sm.texts();
        let id = self.sm.load(path, text)?;
        proof {
            self.data.lemma_wf_grow(before, text@.push(0));
            self.sm.lemma_wf();
            assert(self.sm.texts()[id.0 as int] == text@.push(0));
        }
        self.stack.push((id, 0));
        proof {
            assert forall|i: int| 0 <= i < self.stack@.len() implies {
                let (sid, off) = #[trigger] self.stack@[i];
                (sid.0 as int) < self.sm.texts().len() && (off as int) < self.sm.texts()[sid.0 as int].len()
            } by {
                if i < self.stack@.len() - 1 {
                    let (sid, off) = self.stack@[i];
                    assert(self.sm.texts()[sid.0 as int] == before[sid.0 as int]);
                }
            }
        }
        Ok(id)
    }

    /// The files whose parse is not done, innermost last: id and where to go on.
    pub closed spec fn frames(&self) -> Seq<(SourceId, usize)> {
        self.stack@
    }

    /// Parses the innermost unfinished file on, until its end or until a statement
    /// names another file.
    pub fn step(&mut self) -> (r: Result<Progress, ParseError>)
        requires
            old(self).wf(),
        ensures
            final(self).wf(),
            final(self).texts() == old(self).texts(),
            r matches Ok(Progress::Named(pl)) ==> (pl.loc.source_id.0 as int) < final(self).texts().len(),
            r is Err ==> final(self).frames().len() == 0,
            old(self).frames().len() == 0 ==> (r matches Ok(Progress::Finished)) && final(self).frames() == old(self).frames()
                && state_of(&final(self).model()) == state_of(&old(self).model()),
            old(self).frames().len() > 0 ==> match items_spec(
                old(self).texts()[old(self).frames().last().0.0 as int],
                old(self).frames().last().0,
                old(self).frames().last().1 as int,
                state_of(&old(self).model()),
            ) {
                Ok((Some(item), q, st)) => (r matches Ok(Progress::Named(pl)) && (pl.elem@, pl.loc)
                    == item) && state_of(&final(self).model()) == st && final(self).frames()
                    == old(self).frames().update(
                    old(self).frames().len() - 1,
                    (old(self).frames().last().0, q as usize),
                ),
                Ok((None, q, st)) => (r matches Ok(Progress::FileDone)) && state_of(
                    &final(self).model(),
                ) == st && final(self).frames() == old(self).frames().drop_last(),
                Err(e) => r == Err::<Progress, ParseError>(e) && rule_error_explained(
                    &final(self).model(),
                    final(self).texts(),
                    e,
                ),
            },
    {
        let n = self.stack.len();
        if n == 0 {
            return Ok(Progress::Finished);
        }
        let (id, off) = self.stack[n - 1];
        proof {
            self.sm.lemma_wf();
            let (sid, soff) = self.stack@[n - 1];
            assert(self.sm.texts()[id.0 as int] == self.sm.texts()[sid.0 as int]);
        }
        let source = self.sm.get(id);
        let ghost d0 = self.data;
        let ghost frames0 = self.stack@;
        let result = parse_source(source, off, &mut self.data, Ghost(self.sm.texts()));
        match result {
            Err(e) => {
                self.stack = Vec::new();
                Err(e)
            },
            Ok((Some(path), next)) => {
                let ghost frames = self.stack@;
                self.stack.set(n - 1, (id, next));
                proof {
                    assert forall|i: int| 0 <= i < self.stack@.len() implies {
                        let (sid, soff) = #[trigger] self.stack@[i];
                        (sid.0 as int) < self.sm.texts().len() && (soff as int)
                            < self.sm.texts()[sid.0 as int].len()
                    } by {
                        if i != n - 1 {
                            assert(self.stack@[i] == frames[i]);
                        }
                    }
                    d0.lemma_before_mono(id, off as int, next as int);
                    assert forall|i: int|
                        0 <= i < self.stack@.len() implies self.data.places_before(
                        (#[trigger] self.stack@[i]).0,
                        self.stack@[i].1 as int,
                    ) by {
                        if i != n - 1 {
                            assert(self.stack@[i] == frames[i]);
                            assert(frames[i].0.0 < frames[n - 1].0.0);
                            assert(d0.places_before(frames[i].0, frames[i].1 as int));
                        }
                    }
                    assert forall|i: int, j: int|
                        0 <= i < j < self.stack@.len() implies (#[trigger] self.stack@[i]).0.0 < (
                        #[trigger] self.stack@[j]).0.0 by {
                        assert(frames[i].0.0 < frames[j].0.0);
                    }
                }
                Ok(Progress::Named(path))
            },
            Ok((None, _)) => {
                let ghost frames = self.stack@;
                self.stack.pop();
                proof {
                    assert(self.stack@ =~= frames.drop_last());
                    assert forall|i: int| 0 <= i < self.stack@.len() implies {
                        let (sid, soff) = #[trigger] self.stack@[i];
                        (sid.0 as int) < self.sm.texts().len() && (soff as int)
                            < self.sm.texts()[sid.0 as int].len()
                    } by {
                        assert(self.stack@[i] == frames[i]);
                    }
                    assert forall|i: int|
                        0 <= i < self.stack@.len() implies self.data.places_before(
                        (#[trigger] self.stack@[i]).0,
                        self.stack@[i].1 as int,
                    ) by {
                        assert(self.stack@[i] == frames[i]);
                        assert(frames[i].0.0 < frames[n - 1].0.0);
                        assert(d0.places_before(frames[i].0, frames[i].1 as int));
                    }
                    assert forall|i: int, j: int|
                        0 <= i < j < self.stack@.len() implies (#[trigger] self.stack@[i]).0.0 < (
                        #[trigger] self.stack@[j]).0.0 by {
                        assert(frames[i].0.0 < frames[j].0.0);
                    }
                }
                Ok(Progress::FileDone)
            },
        }
    }

    /// Parses on until every opened file is done (`None`) or until a statement names
    /// another file (its path, as written, with the place it was written).
    pub fn resume(&mut self) -> (r: Result<Option<L<Vec<u8>>>, ParseError>)
        requires
            old(self).wf(),
        ensures
            final(self).wf(),
            final(self).texts() == old(self).texts(),
            match r {
                Ok(Some(path)) => (path.loc.source_id.0 as int) < final(self).texts().len(),
                Ok(None) => final(self).pending() == 0,
                Err(e) => rule_error_explained(&final(self).model(), final(self).texts(), e),
            },
            match resume_spec(old(self).texts(), old(self).frames(), state_of(&old(self).model())) {
                Ok((path, frames, st)) => final(self).frames() == frames && state_of(
                    &final(self).model(),
                ) == st && match r {
                    Ok(Some(pl)) => path == Some((pl.elem@, pl.loc)),
                    Ok(None) => path is None,
                    Err(_) => false,
                },
                Err(e) => r == Err::<Option<L<Vec<u8>>>, ParseError>(e),
            },
    {
        loop
            invariant
                self.wf(),
                self.texts() == old(self).texts(),
                resume_spec(self.texts(), self.frames(), state_of(&self.model())) == resume_spec(
                    old(self).texts(),
                    old(self).frames(),
                    state_of(&old(self).model()),
                ),
            decreases self.stack@.len(),
        {
            let ghost texts = self.texts();
            let ghost fr0 = self.frames();
            let ghost st0 = state_of(&self.model());
            let ghost spec0 = resume_spec(texts, fr0, st0);
            proof {
                if fr0.len() > 0 {
                    let (id, off) = fr0.last();
                    assert(spec0 == match items_spec(texts[id.0 as int], id, off as int, st0) {
                        Err(e) => Err(e),
                        Ok((Some(item), q, st2)) => Ok(
                            (Some(item), fr0.update(fr0.len() - 1, (id, q as usize)), st2),
                        ),
                        Ok((None, _, st2)) => resume_spec(texts, fr0.drop_last(), st2),
                    });
                }
            }
            match self.step() {
                Err(e) => {
                    return Err(e);
                },
                Ok(Progress::Named(path)) => {
                    return Ok(Some(path));
                },
                Ok(Progress::FileDone) => {},
                Ok(Progress::Finished) => {
                    return Ok(None);
                },
            }
        }
    }

    /// The loaded project, once every file is parsed.
    pub fn finish(self) -> (r: Ninja)
        requires
            self.wf(),
            self.pending() == 0,
        ensures
            r.wf(),
            r.texts() == self.texts(),
            r.paths() == self.paths(),
            r.model() == self.model(),
    {
        Ninja { sm: self.sm, data: self.data }
    }
}


} // verus!
