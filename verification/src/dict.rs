//! The statistical model: vocabulary entries, the connection-cost table,
//! and the unknown-word fallback of the dictionary lookup service.

use vstd::prelude::*;

use crate::MecabError;
use crate::NodeStat;

verus! {

/// One vocabulary entry: a surface form together with its context
/// categories, part-of-speech id, word cost and feature string.
pub struct Entry {
    pub surface: Vec<u8>,
    pub lcattr: u16,
    pub rcattr: u16,
    pub posid: u16,
    pub wcost: i16,
    pub feature: String,
}

/// Mathematical image of an [`Entry`].
pub ghost struct EntryView {
    pub surface: Seq<u8>,
    pub lcattr: u16,
    pub rcattr: u16,
    pub posid: u16,
    pub wcost: i16,
    pub feature: Seq<char>,
}

impl View for Entry {
    type V = EntryView;

    open spec fn view(&self) -> EntryView {
        EntryView {
            surface: self.surface@,
            lcattr: self.lcattr,
            rcattr: self.rcattr,
            posid: self.posid,
            wcost: self.wcost,
            feature: self.feature@,
        }
    }
}

impl DeepView for Entry {
    type V = EntryView;

    open spec fn deep_view(&self) -> EntryView {
        self.view()
    }
}

/// A candidate word produced by a lookup: what the lattice builder needs
/// to make a node, before a span position is attached.
pub struct Candidate {
    pub length: usize,
    pub lcattr: u16,
    pub rcattr: u16,
    pub posid: u16,
    pub wcost: i16,
    pub stat: NodeStat,
    pub feature: String,
}

/// Mathematical image of a [`Candidate`].
pub ghost struct CandidateView {
    pub length: int,
    pub lcattr: u16,
    pub rcattr: u16,
    pub posid: u16,
    pub wcost: i16,
    pub stat: NodeStat,
    pub feature: Seq<char>,
}

impl View for Candidate {
    type V = CandidateView;

    open spec fn view(&self) -> CandidateView {
        CandidateView {
            length: self.length as int,
            lcattr: self.lcattr,
            rcattr: self.rcattr,
            posid: self.posid,
            wcost: self.wcost,
            stat: self.stat,
            feature: self.feature@,
        }
    }
}

impl DeepView for Candidate {
    type V = CandidateView;

    open spec fn deep_view(&self) -> CandidateView {
        self.view()
    }
}

/// Metadata of one loaded dictionary; `next` chains a system dictionary
/// to the user dictionaries loaded after it.
pub struct DictionaryInfo {
    pub filename: String,
    pub charset: String,
    pub size: u32,
    pub dict_type: i32,
    pub lsize: u32,
    pub rsize: u32,
    pub version: u16,
    next: Option<Box<DictionaryInfo>>,
}

/// Mathematical image of one link of a [`DictionaryInfo`] chain.
pub ghost struct DictInfoView {
    pub filename: Seq<char>,
    pub charset: Seq<char>,
    pub size: u32,
    pub dict_type: i32,
    pub lsize: u32,
    pub rsize: u32,
    pub version: u16,
}

impl DictionaryInfo {
    /// The chain of dictionaries from this one onward.
    pub closed spec fn chain(&self) -> Seq<DictInfoView>
        decreases *self,
    {
        let head = DictInfoView {
            filename: self.filename@,
            charset: self.charset@,
            size: self.size,
            dict_type: self.dict_type,
            lsize: self.lsize,
            rsize: self.rsize,
            version: self.version,
        };
        match self.next {
            Option::None => seq![head],
            Option::Some(ref n) => seq![head] + n.chain(),
        }
    }
}

impl View for DictionaryInfo {
    type V = Seq<DictInfoView>;

    open spec fn view(&self) -> Seq<DictInfoView> {
        self.chain()
    }
}

impl DictionaryInfo {
    /// A chain link with the given metadata, placed in front of `rest`.
    pub fn new(
        filename: String,
        charset: String,
        size: u32,
        dict_type: i32,
        lsize: u32,
        rsize: u32,
        version: u16,
        rest: Option<DictionaryInfo>,
    ) -> (r: DictionaryInfo)
        ensures
            r@.len() >= 1,
            r@[0] == (DictInfoView {
                filename: filename@,
                charset: charset@,
                size: size,
                dict_type: dict_type,
                lsize: lsize,
                rsize: rsize,
                version: version,
            }),
            match rest {
                Option::None => r@.len() == 1,
                Option::Some(d) => r@.skip(1) == d@,
            },
    {
        let r = DictionaryInfo {
            filename,
            charset,
            size,
            dict_type,
            lsize,
            rsize,
            version,
            next: match rest {
                Option::None => Option::None,
                Option::Some(d) => Option::Some(Box::new(d)),
            },
        };
        proof {
            assert(r@.skip(1) =~= match r.next {
                Option::None => Seq::<DictInfoView>::empty(),
                Option::Some(ref n) => n.chain(),
            });
        }
        r
    }

    /// A structural copy of this chain.
    fn duplicate(&self) -> (r: DictionaryInfo)
        ensures
            r@ == self@,
        decreases *self,
    {
        DictionaryInfo {
            filename: self.filename.clone(),
            charset: self.charset.clone(),
            size: self.size,
            dict_type: self.dict_type,
            lsize: self.lsize,
            rsize: self.rsize,
            version: self.version,
            next: match self.next {
                Option::None => Option::None,
                Option::Some(ref n) => Option::Some(Box::new(n.duplicate())),
            },
        }
    }

    /// The dictionary loaded after this one, if any.
    pub fn next(&self) -> (r: Option<DictionaryInfo>)
        ensures
            match r {
                Option::None => self@.len() == 1,
                Option::Some(d) => d@ == self@.skip(1),
            },
    {
        match self.next {
            Option::None => Option::None,
            Option::Some(ref n) => {
                proof {
                    assert(self@.skip(1) =~= n.chain());
                }
                Option::Some(n.duplicate())
            },
        }
    }

    /// Walk the whole chain starting from this dictionary.
    pub fn iter(self) -> (r: DictIter)
        ensures
            r@ == self@,
    {
        DictIter { current: Option::Some(self) }
    }
}

/// The word cost assigned to an unknown-word fallback candidate.
pub const UNK_WORD_COST: i16 = 0;

/// Mathematical image of a [`Model`].
pub ghost struct ModelView {
    pub loaded: bool,
    pub entries: Seq<EntryView>,
    pub matrix: Seq<i16>,
    pub lsize: u16,
    pub rsize: u16,
}

/// Whether the loaded data is self-consistent: the matrix covers every
/// pair of context categories and every entry's categories lie inside it.
pub open spec fn model_data_ok(m: ModelView) -> bool {
    &&& m.lsize >= 1
    &&& m.rsize >= 1
    &&& m.matrix.len() == m.lsize * m.rsize
    &&& forall|i: int|
        0 <= i < m.entries.len() ==> {
            &&& (#[trigger] m.entries[i]).surface.len() >= 1
            &&& m.entries[i].lcattr < m.lsize
            &&& m.entries[i].rcattr < m.rsize
        }
}

/// The connection cost between a predecessor's right category and a
/// successor's left category.
pub open spec fn spec_conn(m: ModelView, rc: u16, lc: u16) -> int {
    m.matrix[rc * m.lsize + lc] as int
}

/// Whether entry `e` matches the input at `pos`: its surface is a
/// non-empty prefix of `text[pos..]`.
pub open spec fn entry_matches(e: EntryView, text: Seq<u8>, pos: int) -> bool {
    &&& e.surface.len() >= 1
    &&& pos + e.surface.len() <= text.len()
    &&& text.subrange(pos, pos + e.surface.len() as int) == e.surface
}

/// The candidate an entry turns into when it matches.
pub open spec fn cand_of_entry(e: EntryView) -> CandidateView {
    CandidateView {
        length: e.surface.len() as int,
        lcattr: e.lcattr,
        rcattr: e.rcattr,
        posid: e.posid,
        wcost: e.wcost,
        stat: NodeStat::Nor,
        feature: e.feature,
    }
}

/// The character class a byte belongs to, for the unknown-word heuristic:
/// digits, letters, whitespace, and everything else.
pub open spec fn spec_byte_class(b: u8) -> u8 {
    if 0x30 <= b <= 0x39 {
        0u8
    } else if (0x41 <= b <= 0x5a) || (0x61 <= b <= 0x7a) {
        1u8
    } else if b == 0x20 || b == 0x09 || b == 0x0a || b == 0x0d {
        2u8
    } else {
        3u8
    }
}

/// Length of the maximal run of bytes of one class starting at `pos`.
pub open spec fn spec_run_len(text: Seq<u8>, pos: int) -> int
    decreases text.len() - pos,
{
    if pos + 1 < text.len() && spec_byte_class(text[pos + 1]) == spec_byte_class(text[pos]) {
        1 + spec_run_len(text, pos + 1)
    } else {
        1
    }
}

/// The unknown-word fallback candidate at `pos`: it consumes the maximal
/// run of bytes of one character class (at least the single byte at `pos`).
pub open spec fn unk_cand(text: Seq<u8>, pos: int) -> CandidateView {
    CandidateView {
        length: spec_run_len(text, pos),
        lcattr: 0u16,
        rcattr: 0u16,
        posid: 0u16,
        wcost: UNK_WORD_COST,
        stat: NodeStat::Unk,
        feature: unk_feature(),
    }
}

/// The feature string carried by unknown-word candidates.
pub open spec fn unk_feature() -> Seq<char> {
    "*"@
}

/// The dictionary candidates at `pos`, in entry order, from index `i` on.
pub open spec fn dict_cands(m: ModelView, text: Seq<u8>, pos: int, i: int) -> Seq<CandidateView>
    decreases m.entries.len() - i,
{
    if i < 0 || i >= m.entries.len() {
        Seq::empty()
    } else if entry_matches(m.entries[i], text, pos) {
        seq![cand_of_entry(m.entries[i])] + dict_cands(m, text, pos, i + 1)
    } else {
        dict_cands(m, text, pos, i + 1)
    }
}

/// What a lookup at `pos` returns: every matching dictionary entry, or
/// the unknown-word fallback when none matches.
pub open spec fn spec_lookup(m: ModelView, text: Seq<u8>, pos: int) -> Seq<CandidateView> {
    let dict = dict_cands(m, text, pos, 0);
    if dict.len() > 0 {
        dict
    } else {
        seq![unk_cand(text, pos)]
    }
}

/// The loaded statistical model: the dictionary entries, the connection
/// cost table, and the metadata of the dictionaries it came from. A model
/// whose data failed validation stays unloaded; every query on it fails
/// with `DictionaryUnavailable`.
pub struct Model {
    loaded: bool,
    entries: Vec<Entry>,
    matrix: Vec<i16>,
    lsize: u16,
    rsize: u16,
    info: DictionaryInfo,
}

impl View for Model {
    type V = ModelView;

    closed spec fn view(&self) -> ModelView {
        ModelView {
            loaded: self.loaded,
            entries: self.entries.deep_view(),
            matrix: self.matrix@,
            lsize: self.lsize,
            rsize: self.rsize,
        }
    }
}

impl Model {
    /// A model marked loaded always carries self-consistent data.
    #[verifier::type_invariant]
    spec fn consistent(self) -> bool {
        self@.loaded ==> model_data_ok(self@)
    }
}

/// The class a byte belongs to, for the unknown-word heuristic.
pub fn byte_class(b: u8) -> (r: u8)
    ensures
        r == spec_byte_class(b),
{
    if 0x30 <= b && b <= 0x39 {
        0
    } else if (0x41 <= b && b <= 0x5a) || (0x61 <= b && b <= 0x7a) {
        1
    } else if b == 0x20 || b == 0x09 || b == 0x0a || b == 0x0d {
        2
    } else {
        3
    }
}

impl Model {
    /// Take ownership of already-loaded model data. The data is validated;
    /// if it is inconsistent the model is kept, but marked unavailable.
    pub fn new(
        entries: Vec<Entry>,
        matrix: Vec<i16>,
        lsize: u16,
        rsize: u16,
        info: DictionaryInfo,
    ) -> (r: Model)
        ensures
            r@.entries == entries.deep_view(),
            r@.matrix == matrix@,
            r@.lsize == lsize,
            r@.rsize == rsize,
            r@.loaded == model_data_ok(r@),
            r.info_view() == info@,
    {
        let mut ent_ok: bool = true;
        let mut i: usize = 0;
        while i < entries.len()
            invariant
                0 <= i <= entries.len(),
                ent_ok == forall|j: int|
                    0 <= j < i ==> {
                        &&& (#[trigger] entries.deep_view()[j]).surface.len() >= 1
                        &&& entries.deep_view()[j].lcattr < lsize
                        &&& entries.deep_view()[j].rcattr < rsize
                    },
            decreases entries.len() - i,
        {
            let e = &entries[i];
            proof {
                assert(entries.deep_view()[i as int] == entries@[i as int].deep_view());
            }
            if e.surface.len() == 0 || e.lcattr >= lsize || e.rcattr >= rsize {
                ent_ok = false;
            }
            i += 1;
        }
        proof {
            assert((lsize as int) * (rsize as int) <= 0xFFFF * 0xFFFF) by (nonlinear_arith)
                requires
                    lsize <= 0xFFFF,
                    rsize <= 0xFFFF,
            ;
        }
        let base_ok: bool = lsize >= 1 && rsize >= 1 && matrix.len() == (lsize as usize) * (
        rsize as usize);
        let ok = base_ok && ent_ok;
        let r = Model { loaded: ok, entries, matrix, lsize, rsize, info };
        proof {
            assert(r@.entries == entries.deep_view());
            if ok {
                assert forall|k: int| 0 <= k < r@.entries.len() implies {
                    &&& (#[trigger] r@.entries[k]).surface.len() >= 1
                    &&& r@.entries[k].lcattr < r@.lsize
                    &&& r@.entries[k].rcattr < r@.rsize
                } by {
                    assert((#[trigger] entries.deep_view()[k]).surface.len() >= 1);
                }
                assert(model_data_ok(r@));
            } else if base_ok {
                let j = choose|j: int|
                    !(0 <= j < entries.deep_view().len() ==> {
                        &&& (#[trigger] entries.deep_view()[j]).surface.len() >= 1
                        &&& entries.deep_view()[j].lcattr < lsize
                        &&& entries.deep_view()[j].rcattr < rsize
                    });
                assert(!(0 <= j < r@.entries.len() ==> {
                    &&& (#[trigger] r@.entries[j]).surface.len() >= 1
                    &&& r@.entries[j].lcattr < r@.lsize
                    &&& r@.entries[j].rcattr < r@.rsize
                }));
                assert(!model_data_ok(r@));
            }
            assert(r@.loaded == model_data_ok(r@));
        }
        r
    }

    /// Whether the model's data passed validation.
    pub fn is_available(&self) -> (r: bool)
        ensures
            r == self@.loaded,
            self@.loaded ==> model_data_ok(self@),
    {
        proof {
            use_type_invariant(self);
        }
        self.loaded
    }

    /// The metadata chain handed to [`Model::new`].
    pub closed spec fn info_view(&self) -> Seq<DictInfoView> {
        self.info@
    }

    /// The metadata chain of the loaded dictionaries.
    pub fn dictionary_info(&self) -> (r: &DictionaryInfo)
        ensures
            r@ == self.info_view(),
    {
        &self.info
    }

    /// How many left context categories the connection table covers.
    pub fn lsize(&self) -> (r: u16)
        ensures
            r == self@.lsize,
    {
        self.lsize
    }

    /// How many right context categories the connection table covers.
    pub fn rsize(&self) -> (r: u16)
        ensures
            r == self@.rsize,
    {
        self.rsize
    }

    /// The transition cost from a predecessor's right context category to
    /// a successor's left context category: a pure table lookup.
    pub fn transition_cost(&self, rc_attr: u16, lc_attr: u16) -> (r: Result<i32, MecabError>)
        ensures
            match r {
                Result::Ok(c) => self@.loaded && rc_attr < self@.rsize && lc_attr < self@.lsize
                    && c == spec_conn(self@, rc_attr, lc_attr),
                Result::Err(e) => if !self@.loaded {
                    e == MecabError::DictionaryUnavailable
                } else {
                    &&& !(rc_attr < self@.rsize && lc_attr < self@.lsize)
                    &&& e == (MecabError::InvalidCategoryId { right_id: rc_attr, left_id: lc_attr })
                },
            },
    {
        if !self.loaded {
            return Result::Err(MecabError::DictionaryUnavailable);
        }
        if rc_attr >= self.rsize || lc_attr >= self.lsize {
            return Result::Err(
                MecabError::InvalidCategoryId { right_id: rc_attr, left_id: lc_attr },
            );
        }
        proof {
            use_type_invariant(self);
            assert(rc_attr * self@.lsize + lc_attr < self@.lsize * self@.rsize && self@.lsize
                * self@.rsize <= 0xFFFF * 0xFFFF) by (nonlinear_arith)
                requires
                    rc_attr < self@.rsize,
                    lc_attr < self@.lsize,
                    self@.lsize <= 0xFFFF,
                    self@.rsize <= 0xFFFF,
            ;
        }
        let idx: usize = (rc_attr as usize) * (self.lsize as usize) + (lc_attr as usize);
        Result::Ok(self.matrix[idx] as i32)
    }

    /// Every dictionary entry whose surface matches a prefix of
    /// `text[pos..]`, in entry order; the unknown-word fallback when none
    /// does. The result is never empty.
    pub fn lookup(&self, text: &Vec<u8>, pos: usize) -> (r: Result<Vec<Candidate>, MecabError>)
        requires
            pos < text@.len(),
        ensures
            match r {
                Result::Ok(cands) => {
                    &&& self@.loaded
                    &&& cands.deep_view() == spec_lookup(self@, text@, pos as int)
                    &&& cands@.len() >= 1
                },
                Result::Err(e) => !self@.loaded && e == MecabError::DictionaryUnavailable,
            },
    {
        if !self.loaded {
            return Result::Err(MecabError::DictionaryUnavailable);
        }
        proof {
            use_type_invariant(self);
        }
        let mut cands: Vec<Candidate> = Vec::new();
        let mut i: usize = 0;
        proof {
            assert(cands.deep_view() + dict_cands(self@, text@, pos as int, 0) =~= dict_cands(
                self@,
                text@,
                pos as int,
                0,
            ));
        }
        while i < self.entries.len()
            invariant
                0 <= i <= self.entries.len(),
                pos < text@.len(),
                self@.loaded,
                model_data_ok(self@),
                cands.deep_view() + dict_cands(self@, text@, pos as int, i as int) == dict_cands(
                    self@,
                    text@,
                    pos as int,
                    0,
                ),
            decreases self.entries.len() - i,
        {
            let e = &self.entries[i];
            proof {
                assert(self@.entries[i as int] == self.entries@[i as int].deep_view());
                assert(self@.entries[i as int].surface.len() >= 1);
            }
            if is_prefix_at(&e.surface, text, pos) {
                let c = Candidate {
                    length: e.surface.len(),
                    lcattr: e.lcattr,
                    rcattr: e.rcattr,
                    posid: e.posid,
                    wcost: e.wcost,
                    stat: NodeStat::Nor,
                    feature: e.feature.clone(),
                };
                proof {
                    assert(c.deep_view() == cand_of_entry(self@.entries[i as int]));
                }
                cands.push(c);
                proof {
                    assert(dict_cands(self@, text@, pos as int, i as int) == seq![
                        cand_of_entry(self@.entries[i as int]),
                    ] + dict_cands(self@, text@, pos as int, i + 1));
                    assert(cands.deep_view() + dict_cands(self@, text@, pos as int, i + 1)
                        =~= dict_cands(self@, text@, pos as int, 0));
                }
            } else {
                proof {
                    assert(!entry_matches(self@.entries[i as int], text@, pos as int));
                    assert(dict_cands(self@, text@, pos as int, i as int) == dict_cands(
                        self@,
                        text@,
                        pos as int,
                        i + 1,
                    ));
                }
            }
            i += 1;
        }
        proof {
            assert(dict_cands(self@, text@, pos as int, i as int) =~= Seq::<
                CandidateView,
            >::empty());
            assert(cands.deep_view() =~= dict_cands(self@, text@, pos as int, 0));
        }
        if cands.len() == 0 {
            let k = run_len(text, pos);
            let c = Candidate {
                length: k,
                lcattr: 0,
                rcattr: 0,
                posid: 0,
                wcost: UNK_WORD_COST,
                stat: NodeStat::Unk,
                feature: "*".to_owned(),
            };
            cands.push(c);
            proof {
                assert(dict_cands(self@, text@, pos as int, 0).len() == 0);
                assert(cands.deep_view() =~= seq![unk_cand(text@, pos as int)]);
            }
        }
        Result::Ok(cands)
    }
}

/// Whether `surface` occurs byte for byte at `text[pos..]`.
fn is_prefix_at(surface: &Vec<u8>, text: &Vec<u8>, pos: usize) -> (r: bool)
    requires
        pos <= text@.len(),
    ensures
        r == (pos + surface@.len() <= text@.len() && text@.subrange(
            pos as int,
            pos + surface@.len(),
        ) == surface@),
{
    if surface.len() > text.len() - pos {
        return false;
    }
    let n = surface.len();
    let tlen = text.len();
    let mut j: usize = 0;
    while j < n
        invariant
            0 <= j <= n,
            n == surface@.len(),
            tlen == text@.len(),
            pos + n <= text@.len(),
            forall|k: int| 0 <= k < j ==> text@[pos + k] == surface@[k],
        decreases n - j,
    {
        if text[pos + j] != surface[j] {
            return false;
        }
        j += 1;
    }
    proof {
        assert(text@.subrange(pos as int, pos + surface@.len()) =~= surface@);
    }
    true
}

/// Length of the maximal run of bytes of one character class at `pos`.
fn run_len(text: &Vec<u8>, pos: usize) -> (r: usize)
    requires
        pos < text@.len(),
    ensures
        r == spec_run_len(text@, pos as int),
{
    let cls = byte_class(text[pos]);
    let tlen = text.len();
    let mut j: usize = pos;
    while j + 1 < text.len() && byte_class(text[j + 1]) == cls
        invariant
            pos <= j < text@.len(),
            tlen == text@.len(),
            cls == spec_byte_class(text@[pos as int]),
            spec_byte_class(text@[j as int]) == cls,
            spec_run_len(text@, pos as int) == (j - pos) + spec_run_len(text@, j as int),
        decreases text@.len() - j,
    {
        j += 1;
    }
    j - pos + 1
}

/// What holds of every candidate a lookup can return.
pub open spec fn cand_bounds_ok(c: CandidateView, m: ModelView, text: Seq<u8>, pos: int) -> bool {
    &&& 1 <= c.length <= text.len() - pos
    &&& c.lcattr < m.lsize
    &&& c.rcattr < m.rsize
    &&& (c.stat == NodeStat::Nor || c.stat == NodeStat::Unk)
}

/// The maximal-run length is at least one byte and stays inside the input.
pub proof fn lemma_run_len_bounds(text: Seq<u8>, pos: int)
    requires
        0 <= pos < text.len(),
    ensures
        1 <= spec_run_len(text, pos) <= text.len() - pos,
    decreases text.len() - pos,
{
    if pos + 1 < text.len() && spec_byte_class(text[pos + 1]) == spec_byte_class(text[pos]) {
        lemma_run_len_bounds(text, pos + 1);
    }
}

proof fn lemma_dict_cands_bounds(m: ModelView, text: Seq<u8>, pos: int, i: int)
    requires
        model_data_ok(m),
        0 <= pos < text.len(),
    ensures
        forall|k: int|
            0 <= k < dict_cands(m, text, pos, i).len() ==> cand_bounds_ok(
                #[trigger] dict_cands(m, text, pos, i)[k],
                m,
                text,
                pos,
            ),
    decreases m.entries.len() - i,
{
    if 0 <= i < m.entries.len() {
        lemma_dict_cands_bounds(m, text, pos, i + 1);
        assert forall|k: int| 0 <= k < dict_cands(m, text, pos, i).len() implies cand_bounds_ok(
            #[trigger] dict_cands(m, text, pos, i)[k],
            m,
            text,
            pos,
        ) by {
            if entry_matches(m.entries[i], text, pos) {
                if k == 0 {
                    assert(dict_cands(m, text, pos, i)[0] == cand_of_entry(m.entries[i]));
                    assert(cand_bounds_ok(cand_of_entry(m.entries[i]), m, text, pos));
                } else {
                    assert(dict_cands(m, text, pos, i)[k] == dict_cands(m, text, pos, i + 1)[k
                        - 1]);
                }
            } else {
                assert(dict_cands(m, text, pos, i)[k] == dict_cands(m, text, pos, i + 1)[k]);
            }
        }
    }
}

/// Every candidate a lookup returns is at least one byte long, fits the
/// remaining input, and carries context categories the matrix covers.
pub proof fn lemma_lookup_bounds(m: ModelView, text: Seq<u8>, pos: int)
    requires
        model_data_ok(m),
        0 <= pos < text.len(),
    ensures
        forall|k: int|
            0 <= k < spec_lookup(m, text, pos).len() ==> cand_bounds_ok(
                #[trigger] spec_lookup(m, text, pos)[k],
                m,
                text,
                pos,
            ),
{
    lemma_dict_cands_bounds(m, text, pos, 0);
    lemma_run_len_bounds(text, pos);
    assert(cand_bounds_ok(unk_cand(text, pos), m, text, pos));
}

/// A cursor over a [`DictionaryInfo`] chain.
pub struct DictIter {
    current: Option<DictionaryInfo>,
}

impl View for DictIter {
    type V = Seq<DictInfoView>;

    closed spec fn view(&self) -> Seq<DictInfoView> {
        match self.current {
            Option::None => Seq::empty(),
            Option::Some(ref d) => d.chain(),
        }
    }
}

impl DictIter {
    /// Hand out the dictionary under the cursor and advance past it.
    pub fn next(&mut self) -> (r: Option<DictionaryInfo>)
        ensures
            match r {
                Option::None => old(self)@.len() == 0 && final(self)@.len() == 0,
                Option::Some(d) => d@ == old(self)@ && final(self)@ == old(self)@.skip(1),
            },
    {
        let cur = self.current.take();
        match cur {
            Option::None => Option::None,
            Option::Some(d) => {
                self.current = d.next();
                proof {
                    if self.current is None {
                        assert(d@.skip(1) =~= Seq::<DictInfoView>::empty());
                    }
                }
                Option::Some(d)
            },
        }
    }
}

} // verus!
