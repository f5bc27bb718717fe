use vstd::prelude::*;

use crate::error::{ErrorKind, ParseError};
use crate::lexer::{wf_text, Location, SourceId, Token};

verus! {

/// The text of one loaded file, with the NUL sentinel appended, and its path.
pub struct Source {
    pub id: SourceId,
    pub text: Vec<u8>,
    pub path: String,
}

/// The bytes that `loc` spans, when it lies inside the file it names.
pub open spec fn loc_valid(srcs: Seq<Seq<u8>>, loc: Location) -> bool {
    &&& (loc.source_id.0 as int) < srcs.len()
    &&& loc.start <= loc.stop
    &&& loc.stop < srcs[loc.source_id.0 as int].len()
}

pub open spec fn loc_text(srcs: Seq<Seq<u8>>, loc: Location) -> Seq<u8> {
    srcs[loc.source_id.0 as int].subrange(loc.start as int, loc.stop as int)
}

/// The file's text as it was loaded: without the sentinel.
pub open spec fn content(t: Seq<u8>) -> Seq<u8> {
    t.subrange(0, t.len() - 1)
}

impl Source {
    pub open spec fn wf(&self) -> bool {
        wf_text(self.text@)
    }

    /// The text a token spans.
    pub fn str(&self, token: &Token) -> (r: &[u8])
        requires
            token.loc.start <= token.loc.stop <= self.text@.len(),
        ensures
            r@ == self.text@.subrange(token.loc.start as int, token.loc.stop as int),
    {
        self.str_loc(token.loc)
    }

    /// The text a location spans.
    pub fn str_loc(&self, loc: Location) -> (r: &[u8])
        requires
            loc.start <= loc.stop <= self.text@.len(),
        ensures
            r@ == self.text@.subrange(loc.start as int, loc.stop as int),
    {
        &self.text.as_slice()[loc.start..loc.stop]
    }

    /// The text as the lexer reads it, sentinel included.
    pub fn text_parser(&self) -> (r: &[u8])
        ensures
            r@ == self.text@,
    {
        self.text.as_slice()
    }

    /// The file's text as it was loaded.
    pub fn text(&self) -> (r: &[u8])
        requires
            self.wf(),
        ensures
            r@ == content(self.text@),
    {
        &self.text.as_slice()[0..self.text.len() - 1]
    }
}

/// The append-only store of loaded files; a file's id is its index.
pub struct SourceManager {
    sources: Vec<Source>,
}

impl SourceManager {
    /// The texts of the loaded files, sentinels included, by id.
    pub closed spec fn texts(&self) -> Seq<Seq<u8>> {
        Seq::new(self.sources@.len(), |i: int| self.sources@[i].text@)
    }

    /// The paths the loaded files were read from, by id.
    pub closed spec fn paths(&self) -> Seq<Seq<char>> {
        Seq::new(self.sources@.len(), |i: int| self.sources@[i].path@)
    }

    pub closed spec fn wf(&self) -> bool {
        &&& self.sources@.len() < u32::MAX
        &&& forall|i: int|
            0 <= i < self.sources@.len() ==> (#[trigger] self.sources@[i]).id.0 == i
                && self.sources@[i].wf()
    }

    pub open spec fn wf_texts(&self) -> bool {
        forall|i: int| 0 <= i < self.texts().len() ==> wf_text(#[trigger] self.texts()[i])
    }

    pub proof fn lemma_wf(&self)
        requires
            self.wf(),
        ensures
            self.wf_texts(),
            self.texts().len() < u32::MAX,
    {
    }

    pub fn new() -> (r: SourceManager)
        ensures
            r.wf(),
            r.texts() == Seq::<Seq<u8>>::empty(),
    {
        let r = SourceManager { sources: Vec::new() };
        assert(r.texts() =~= Seq::<Seq<u8>>::empty());
        r
    }

    pub fn len(&self) -> (r: usize)
        requires
            self.wf(),
        ensures
            r == self.texts().len(),
    {
        self.sources.len()
    }

    /// Stores the text of a file read from `path`, with the sentinel appended, under
    /// the next id. A text holding a NUL byte is refused.
    pub fn load(&mut self, path: String, text: &[u8]) -> (r: Result<SourceId, ParseError>)
        requires
            old(self).wf(),
        ensures
            final(self).wf(),
            match r {
                Ok(id) => {
                    &&& (forall|i: int| 0 <= i < text@.len() ==> text@[i] != 0)
                    &&& old(self).texts().len() + 1 < u32::MAX
                    &&& text@.len() + 1 < usize::MAX
                    &&& id.0 == old(self).texts().len()
                    &&& final(self).texts() == old(self).texts().push(text@.push(0))
                    &&& final(self).paths() == old(self).paths().push(path@)
                },
                Err(e) => {
                    &&& final(self).texts() == old(self).texts()
                    &&& final(self).paths() == old(self).paths()
                    &&& e.kind == ErrorKind::NulInSource ==> exists|i: int|
                        0 <= i < text@.len() && text@[i] == 0
                    &&& e.kind == ErrorKind::TooManyItems ==> old(self).texts().len() + 1
                        >= u32::MAX || text@.len() + 1 >= usize::MAX
                    &&& (e.kind == ErrorKind::NulInSource || e.kind == ErrorKind::TooManyItems)
                },
            },
    {
        let n = self.sources.len();
        let id = SourceId(n as u32);
        let mut i: usize = 0;
        while i < text.len()
            invariant
                0 <= i <= text@.len(),
                forall|j: int| 0 <= j < i ==> text@[j] != 0,
                self.wf(),
                self.texts() == old(self).texts(),
                self.paths() == old(self).paths(),
            decreases text@.len() - i,
        {
            if text[i] == 0 {
                return Err(
                    ParseError {
                        kind: ErrorKind::NulInSource,
                        loc: Location { start: i, stop: i, source_id: id },
                    },
                );
            }
            i = i + 1;
        }
        if n + 1 >= u32::MAX as usize || text.len() >= usize::MAX - 1 {
            return Err(
                ParseError {
                    kind: ErrorKind::TooManyItems,
                    loc: Location { start: 0, stop: 0, source_id: id },
                },
            );
        }
        let mut stored: Vec<u8> = Vec::new();
        crate::lexer::push_range(&mut stored, text, 0, text.len());
        stored.push(0);
        assert(stored@ =~= text@.push(0));
        let ghost old_texts = self.texts();
        let ghost old_paths = self.paths();
        let ghost p = path@;
        self.sources.push(Source { id, text: stored, path });
        assert(self.texts() =~= old_texts.push(text@.push(0)));
        assert(self.paths() =~= old_paths.push(p));
        Ok(id)
    }

    pub fn get(&self, id: SourceId) -> (r: &Source)
        requires
            self.wf(),
            (id.0 as int) < self.texts().len(),
        ensures
            r.id == id,
            r.text@ == self.texts()[id.0 as int],
            r.path@ == self.paths()[id.0 as int],
            r.wf(),
    {
        &self.sources[id.0 as usize]
    }
}

} // verus!
