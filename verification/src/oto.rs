//! The voicebank timing table ("oto") and the pitch-prefix table.  Both are
//! line-oriented `key=value` texts; parsing is stated field-for-field over
//! the character sequences, and the tables expose mathematical map views.

use vstd::prelude::*;
use crate::error::SynthError;
use crate::strmap::StrMap;
use crate::text::{find_char, lemma_find_char_at, trim_seq, spec_decimal_us, parse_decimal_us,
    trim_bounds, find_char_in, str_to_chars};
use crate::util::spec_pitch_key;
use vstd::string::StrSliceExecFns;
use vstd::string::StringExecFns;

verus! {

/// Ghost image of a timing entry: times in microseconds.
pub struct OtoSpecEntry {
    pub filename: Seq<char>,
    pub alias: Seq<char>,
    pub offset: int,
    pub consonant: int,
    pub cutoff: int,
    pub preutterance: int,
    pub overlap: int,
}

/// Millisecond markers describing how one voicebank sample is sliced: where
/// its usable audio starts, how long the fixed consonant part is, where it is
/// cut off (negative: relative to the sample's end), how much of it precedes
/// the note's onset, and how long it may crossfade into its predecessor.
/// All times are microseconds.
#[derive(Clone, Debug)]
pub struct OtoEntry {
    pub filename: String,
    pub alias: String,
    pub offset: i64,
    pub consonant: i64,
    pub cutoff: i64,
    pub preutterance: i64,
    pub overlap: i64,
}

impl DeepView for OtoEntry {
    type V = OtoSpecEntry;

    open spec fn deep_view(&self) -> OtoSpecEntry {
        OtoSpecEntry {
            filename: self.filename@,
            alias: self.alias@,
            offset: self.offset as int,
            consonant: self.consonant as int,
            cutoff: self.cutoff as int,
            preutterance: self.preutterance as int,
            overlap: self.overlap as int,
        }
    }
}

/// Every time field within the range the renderer accepts.
pub open spec fn entry_bounded(e: OtoSpecEntry) -> bool {
    &&& -crate::MAX_TIME_US <= e.offset <= crate::MAX_TIME_US
    &&& -crate::MAX_TIME_US <= e.consonant <= crate::MAX_TIME_US
    &&& -crate::MAX_TIME_US <= e.cutoff <= crate::MAX_TIME_US
    &&& -crate::MAX_TIME_US <= e.preutterance <= crate::MAX_TIME_US
    &&& -crate::MAX_TIME_US <= e.overlap <= crate::MAX_TIME_US
}

/// One trimmed millisecond field of a line, in microseconds.
pub open spec fn field_us(line: Seq<char>, a: int, b: int) -> int {
    spec_decimal_us(trim_seq(line.subrange(a, b)))
}

/// What one timing-table line contributes: `filename=alias,offset,consonant,
/// cutoff,preutterance,overlap`.  Lines without `'='`, with a blank alias or
/// with fewer than five numeric fields contribute nothing; surplus fields are
/// ignored; non-numeric fields count 0.
pub open spec fn spec_oto_line(line: Seq<char>) -> Option<OtoSpecEntry> {
    let eq = find_char(line, '=', 0);
    if eq >= line.len() {
        None
    } else {
        let c0 = find_char(line, ',', eq + 1);
        let alias = trim_seq(line.subrange(eq + 1, c0));
        if alias.len() == 0 || c0 >= line.len() {
            None
        } else {
            let c1 = find_char(line, ',', c0 + 1);
            let c2 = find_char(line, ',', c1 + 1);
            let c3 = find_char(line, ',', c2 + 1);
            let c4 = find_char(line, ',', c3 + 1);
            if c1 >= line.len() || c2 >= line.len() || c3 >= line.len() || c4 >= line.len() {
                None
            } else {
                let c5 = find_char(line, ',', c4 + 1);
                Some(
                    OtoSpecEntry {
                        filename: line.take(eq),
                        alias,
                        offset: field_us(line, c0 + 1, c1),
                        consonant: field_us(line, c1 + 1, c2),
                        cutoff: field_us(line, c2 + 1, c3),
                        preutterance: field_us(line, c3 + 1, c4),
                        overlap: field_us(line, c4 + 1, c5),
                    },
                )
            }
        }
    }
}

pub proof fn lemma_oto_line_bounded(line: Seq<char>)
    ensures
        spec_oto_line(line) matches Some(e) ==> entry_bounded(e),
{
}

/// Every entry a timing text denotes has its fields within the range the
/// renderer accepts: the field parser saturates them there.
pub proof fn lemma_oto_map_bounded(text: Seq<char>)
    ensures
        forall|k: Seq<char>|
            spec_oto_map(text).contains_key(k) ==> entry_bounded(#[trigger] spec_oto_map(text)[k]),
    decreases text.len(),
{
    if text.len() > 0 {
        let e = find_char(text, '\n', 0);
        let raw = text.take(e);
        let line = if raw.len() > 0 && raw.last() == '\r' {
            raw.drop_last()
        } else {
            raw
        };
        let rest = if 0 <= e && e < text.len() {
            text.skip(e + 1)
        } else {
            Seq::<char>::empty()
        };
        lemma_oto_map_bounded(rest);
        lemma_oto_line_bounded(line);
        assert forall|k: Seq<char>| spec_oto_map(text).contains_key(k) implies entry_bounded(
            #[trigger] spec_oto_map(text)[k],
        ) by {
            let mr = spec_oto_map(rest);
            if mr.contains_key(k) {
                assert(entry_bounded(mr[k]));
                assert(spec_oto_map(text)[k] == mr[k]);
            } else {
                let en = spec_oto_line(line)->Some_0;
                assert(k == en.alias && spec_oto_map(text)[k] == en);
            }
        }
    }
}

/// Reads one trimmed millisecond field; the range is given both absolutely
/// in `cs` and relative to the ghost line it belongs to.
fn parse_field(cs: &Vec<char>, fs: usize, fe: usize, Ghost(line): Ghost<Seq<char>>, Ghost(start): Ghost<int>) -> (v: i64)
    requires
        fs <= fe <= cs@.len(),
        0 <= start <= fs,
        line == cs@.subrange(start, cs@.len() as int) || (start + line.len() <= cs@.len()
            && line == cs@.subrange(start, start + line.len())),
        start + line.len() >= fe,
    ensures
        v == field_us(line, fs - start, fe - start),
        -crate::MAX_TIME_US <= v <= crate::MAX_TIME_US,
{
    proof {
        assert(line.subrange(fs - start, fe - start) =~= cs@.subrange(fs as int, fe as int));
    }
    let (lo, hi) = trim_bounds(cs, fs, fe);
    parse_decimal_us(cs, lo, hi)
}

/// Reads one timing-table line; `None` exactly where [`spec_oto_line`] says
/// the line contributes nothing.
#[verifier::rlimit(100)]
#[verifier::spinoff_prover]
fn parse_oto_line(text: &str, cs: &Vec<char>, start: usize, end: usize) -> (r: Option<OtoEntry>)
    requires
        cs@ == text@,
        start <= end <= cs@.len(),
    ensures
        match spec_oto_line(cs@.subrange(start as int, end as int)) {
            Some(se) => r matches Some(en) && en.deep_view() == se,
            None => r is None,
        },
{
    let ghost line = cs@.subrange(start as int, end as int);
    let eqp = find_char_in(cs, '=', start, end);
    proof {
        assert(forall|j: int| 0 <= j < eqp - start ==> line[j] == cs@[start + j]);
        lemma_find_char_at(line, '=', 0, eqp - start);
    }
    if eqp == end {
        return None;
    }
    let c0 = find_char_in(cs, ',', eqp + 1, end);
    proof {
        assert(forall|j: int| eqp + 1 - start <= j < c0 - start ==> line[j] == cs@[start + j]);
        lemma_find_char_at(line, ',', eqp + 1 - start, c0 - start);
    }
    let (alo, ahi) = trim_bounds(cs, eqp + 1, c0);
    proof {
        assert(cs@.subrange(alo as int, ahi as int) == trim_seq(
            cs@.subrange(eqp + 1int, c0 as int),
        ));
        assert(cs@.subrange(eqp + 1int, c0 as int) =~= line.subrange(
            eqp + 1 - start,
            c0 - start,
        ));
    }
    if alo == ahi {
        return None;
    }
    if c0 == end {
        return None;
    }
    let c1 = find_char_in(cs, ',', c0 + 1, end);
    let c2 = if c1 < end {
        find_char_in(cs, ',', c1 + 1, end)
    } else {
        end
    };
    let c3 = if c2 < end {
        find_char_in(cs, ',', c2 + 1, end)
    } else {
        end
    };
    let c4 = if c3 < end {
        find_char_in(cs, ',', c3 + 1, end)
    } else {
        end
    };
    proof {
        lemma_find_char_at(line, ',', c0 + 1 - start, c1 - start);
        if c1 < end {
            lemma_find_char_at(line, ',', c1 + 1 - start, c2 - start);
        }
        if c2 < end {
            lemma_find_char_at(line, ',', c2 + 1 - start, c3 - start);
        }
        if c3 < end {
            lemma_find_char_at(line, ',', c3 + 1 - start, c4 - start);
        }
    }
    if c1 == end || c2 == end || c3 == end || c4 == end {
        return None;
    }
    let c5 = find_char_in(cs, ',', c4 + 1, end);
    proof {
        lemma_find_char_at(line, ',', c4 + 1 - start, c5 - start);
    }
    let filename = text.substring_char(start, eqp).to_owned();
    let alias = text.substring_char(alo, ahi).to_owned();
    let offset = parse_field(cs, c0 + 1, c1, Ghost(line), Ghost(start as int));
    let consonant = parse_field(cs, c1 + 1, c2, Ghost(line), Ghost(start as int));
    let cutoff = parse_field(cs, c2 + 1, c3, Ghost(line), Ghost(start as int));
    let preutterance = parse_field(cs, c3 + 1, c4, Ghost(line), Ghost(start as int));
    let overlap = parse_field(cs, c4 + 1, c5, Ghost(line), Ghost(start as int));
    proof {
        assert(cs@.subrange(start as int, eqp as int) =~= line.take(eqp - start));
    }
    Some(OtoEntry { filename, alias, offset, consonant, cutoff, preutterance, overlap })
}

/// The timing table: aliases to entries, duplicates overwriting.
pub type OtoMap = StrMap<OtoEntry>;

/// The ghost image of a timing table.
pub open spec fn deep_oto(m: Map<Seq<char>, OtoEntry>) -> Map<Seq<char>, OtoSpecEntry> {
    Map::new(|k: Seq<char>| m.contains_key(k), |k: Seq<char>| m[k].deep_view())
}

/// The table a timing text denotes: its lines in order, split at `'\n'` with
/// a trailing `'\r'` dropped, each contributing per [`spec_oto_line`], later
/// lines overwriting earlier ones.
pub open spec fn spec_oto_map(text: Seq<char>) -> Map<Seq<char>, OtoSpecEntry>
    decreases text.len(),
{
    if text.len() == 0 {
        Map::empty()
    } else {
        let e = find_char(text, '\n', 0);
        let raw = text.take(e);
        let line = if raw.len() > 0 && raw.last() == '\r' {
            raw.drop_last()
        } else {
            raw
        };
        let rest = if 0 <= e && e < text.len() {
            text.skip(e + 1)
        } else {
            Seq::<char>::empty()
        };
        let m_rest = spec_oto_map(rest);
        match spec_oto_line(line) {
            Some(en) => if m_rest.contains_key(en.alias) {
                m_rest
            } else {
                m_rest.insert(en.alias, en)
            },
            None => m_rest,
        }
    }
}

/// Parses a timing table.  The result holds exactly the entries the text
/// denotes; a text denoting no entries is a configuration error.
#[verifier::rlimit(100)]
#[verifier::spinoff_prover]
pub fn parse_oto_ini(text: &str) -> (r: Result<OtoMap, SynthError>)
    ensures
        r matches Ok(m) ==> deep_oto(m@) == spec_oto_map(text@),
        r matches Ok(m) ==> spec_oto_map(text@) != Map::<Seq<char>, OtoSpecEntry>::empty(),
        r matches Ok(m) ==> forall|k: Seq<char>|
            deep_oto(m@).contains_key(k) ==> entry_bounded(#[trigger] deep_oto(m@)[k]),
        r matches Err(e) ==> e == SynthError::EmptyConfig && spec_oto_map(text@) == Map::<
            Seq<char>,
            OtoSpecEntry,
        >::empty(),
{
    let cs = str_to_chars(text);
    let n = cs.len();
    let mut m = StrMap::<OtoEntry>::new();
    let mut pos: usize = 0;
    proof {
        assert(deep_oto(m@) =~= Map::<Seq<char>, OtoSpecEntry>::empty());
        assert(cs@.skip(0) =~= cs@);
        assert(deep_oto(m@).union_prefer_right(spec_oto_map(cs@.skip(0))) =~= spec_oto_map(cs@));
    }
    while pos < n
        invariant
            cs@ == text@,
            n == cs@.len(),
            pos <= n,
            deep_oto(m@).union_prefer_right(spec_oto_map(cs@.skip(pos as int))) == spec_oto_map(
                cs@,
            ),
        decreases n - pos,
    {
        let e = find_char_in(&cs, '\n', pos, n);
        let mut le = e;
        if le > pos && cs[le - 1] == '\r' {
            le -= 1;
        }
        let ghost rest = cs@.skip(pos as int);
        let ghost rest2 = if e < n {
            cs@.skip(e + 1int)
        } else {
            Seq::<char>::empty()
        };
        proof {
            assert(forall|j: int| 0 <= j < e - pos ==> rest[j] == cs@[pos + j]);
            lemma_find_char_at(rest, '\n', 0, e - pos);
            assert(rest.take(e - pos) =~= cs@.subrange(pos as int, e as int));
            if le < e {
                assert(rest.take(e - pos).drop_last() =~= cs@.subrange(pos as int, le as int));
            }
            if e < n {
                assert(rest.skip(e - pos + 1) =~= cs@.skip(e + 1int));
            }
        }
        let parsed = parse_oto_line(text, &cs, pos, le);
        let ghost m_rest2 = spec_oto_map(rest2);
        match parsed {
            Some(en) => {
                let ghost old_map = m@;
                let ghost k = en.alias@;
                let ghost se = en.deep_view();
                let key = en.alias.clone();
                m.insert(key, en);
                proof {
                    assert(deep_oto(m@) =~= deep_oto(old_map).insert(k, se));
                    if m_rest2.contains_key(k) {
                        assert(deep_oto(m@).union_prefer_right(m_rest2) =~= deep_oto(
                            old_map,
                        ).union_prefer_right(spec_oto_map(rest)));
                    } else {
                        assert(spec_oto_map(rest) =~= m_rest2.insert(k, se));
                        assert(deep_oto(m@).union_prefer_right(m_rest2) =~= deep_oto(
                            old_map,
                        ).union_prefer_right(spec_oto_map(rest)));
                    }
                }
            },
            None => {
                proof {
                    assert(spec_oto_map(rest) == m_rest2);
                }
            },
        }
        if e < n {
            pos = e + 1;
        } else {
            pos = n;
        }
        proof {
            assert(cs@.skip(pos as int) =~= rest2);
        }
    }
    proof {
        assert(cs@.skip(n as int) =~= Seq::<char>::empty());
        assert(deep_oto(m@).union_prefer_right(Map::empty()) =~= deep_oto(m@));
    }
    if m.is_empty() {
        proof {
            assert(deep_oto(m@) =~= Map::<Seq<char>, OtoSpecEntry>::empty());
        }
        Err(SynthError::EmptyConfig)
    } else {
        proof {
            let k = choose|k: Seq<char>| m@.contains_key(k);
            assert(deep_oto(m@).contains_key(k));
            assert(spec_oto_map(text@).contains_key(k));
            assert(!Map::<Seq<char>, OtoSpecEntry>::empty().contains_key(k));
            lemma_oto_map_bounded(text@);
        }
        Ok(m)
    }
}

/// The map described by pitch/suffix rows, later rows overwriting earlier.
pub open spec fn int_assoc_map(rows: Seq<(i32, String)>) -> Map<int, Seq<char>>
    decreases rows.len(),
{
    if rows.len() == 0 {
        Map::empty()
    } else {
        int_assoc_map(rows.drop_last()).insert(rows.last().0 as int, rows.last().1@)
    }
}

pub proof fn lemma_int_assoc_found(rows: Seq<(i32, String)>, i: int)
    requires
        0 <= i < rows.len(),
        forall|j: int| i < j < rows.len() ==> (#[trigger] rows[j]).0 != rows[i].0,
    ensures
        int_assoc_map(rows).contains_key(rows[i].0 as int),
        int_assoc_map(rows)[rows[i].0 as int] == rows[i].1@,
    decreases rows.len(),
{
    if i + 1 < rows.len() {
        lemma_int_assoc_found(rows.drop_last(), i);
    }
}

pub proof fn lemma_int_assoc_dom(rows: Seq<(i32, String)>, k: int)
    requires
        int_assoc_map(rows).contains_key(k),
    ensures
        exists|j: int| 0 <= j < rows.len() && (#[trigger] rows[j]).0 == k,
    decreases rows.len(),
{
    if rows.len() > 0 && rows.last().0 != k {
        lemma_int_assoc_dom(rows.drop_last(), k);
        let j = choose|j: int| 0 <= j < rows.len() - 1 && (#[trigger] rows.drop_last()[j]).0 == k;
        assert(rows[j].0 == k);
    }
}

/// The pitch-prefix table: integer pitch keys to alias suffixes.
pub struct PrefixMap {
    rows: Vec<(i32, String)>,
}

impl View for PrefixMap {
    type V = Map<int, Seq<char>>;

    closed spec fn view(&self) -> Map<int, Seq<char>> {
        int_assoc_map(self.rows@)
    }
}

impl PrefixMap {
    pub fn new() -> (r: Self)
        ensures
            r@ == Map::<int, Seq<char>>::empty(),
    {
        PrefixMap { rows: Vec::new() }
    }

    /// Binds `key` to `suffix`, overwriting any earlier binding.
    pub fn insert(&mut self, key: i32, suffix: String)
        ensures
            final(self)@ == old(self)@.insert(key as int, suffix@),
    {
        let ghost old_rows = self.rows@;
        self.rows.push((key, suffix));
        proof {
            assert(self.rows@.drop_last() =~= old_rows);
        }
    }

    /// A table with no rows describes the empty map.
    pub fn is_empty(&self) -> (r: bool)
        ensures
            r ==> self@ == Map::<int, Seq<char>>::empty(),
            !r ==> exists|k: int| self@.contains_key(k),
    {
        proof {
            if self.rows@.len() == 0 {
                assert(self@ =~= Map::<int, Seq<char>>::empty());
            } else {
                let last = self.rows@.len() - 1;
                assert(forall|j: int| last < j < self.rows@.len() ==> (#[trigger] self.rows@[j]).0
                    != self.rows@[last].0);
                lemma_int_assoc_found(self.rows@, last);
                assert(self@.contains_key(self.rows@[last].0 as int));
            }
        }
        self.rows.len() == 0
    }

    /// The largest key at or below `pitch`, with its suffix; `None` when every
    /// key lies above `pitch`.
    pub fn best_at_or_below(&self, pitch: i32) -> (r: Option<(i32, String)>)
        ensures
            match r {
                Some(p) => {
                    &&& self@.contains_key(p.0 as int)
                    &&& p.0 <= pitch
                    &&& p.1@ == self@[p.0 as int]
                    &&& forall|k: int| self@.contains_key(k) && k <= pitch ==> k <= p.0
                },
                None => forall|k: int| self@.contains_key(k) ==> k > pitch,
            },
    {
        let mut best: Option<(i32, usize)> = None;
        let mut i: usize = 0;
        while i < self.rows.len()
            invariant
                i <= self.rows@.len(),
                match best {
                    Some((bk, bi)) => {
                        &&& (bi as int) < i
                        &&& self.rows@[bi as int].0 == bk
                        &&& bk <= pitch
                        &&& forall|j: int|
                            0 <= j < i && (#[trigger] self.rows@[j]).0 <= pitch
                                ==> self.rows@[j].0 <= bk
                        &&& forall|j: int| bi < j < i ==> (#[trigger] self.rows@[j]).0 != bk
                    },
                    None => forall|j: int| 0 <= j < i ==> (#[trigger] self.rows@[j]).0 > pitch,
                },
            decreases self.rows@.len() - i,
        {
            let k = self.rows[i].0;
            if k <= pitch {
                match best {
                    Some((bk, _)) => {
                        if k >= bk {
                            best = Some((k, i));
                        }
                    },
                    None => {
                        best = Some((k, i));
                    },
                }
            }
            i += 1;
        }
        match best {
            Some((bk, bi)) => {
                proof {
                    lemma_int_assoc_found(self.rows@, bi as int);
                    assert forall|k: int| self@.contains_key(k) && k <= pitch implies k <= bk by {
                        lemma_int_assoc_dom(self.rows@, k);
                    }
                }
                let suffix = self.rows[bi].1.clone();
                Some((bk, suffix))
            },
            None => {
                proof {
                    assert forall|k: int| self@.contains_key(k) implies k > pitch by {
                        lemma_int_assoc_dom(self.rows@, k);
                    }
                }
                None
            },
        }
    }
}

/// What one prefix-table line contributes: `pitchname=suffix`, the name
/// either an integer or a note-name token.
pub open spec fn spec_prefix_line(line: Seq<char>) -> Option<(int, Seq<char>)> {
    let eq = find_char(line, '=', 0);
    if eq >= line.len() {
        None
    } else {
        match spec_pitch_key(line.take(eq)) {
            Some(k) => Some((k, line.skip(eq + 1))),
            None => None,
        }
    }
}

/// The table a prefix text denotes, later lines overwriting earlier ones.
pub open spec fn spec_prefix_map(text: Seq<char>) -> Map<int, Seq<char>>
    decreases text.len(),
{
    if text.len() == 0 {
        Map::empty()
    } else {
        let e = find_char(text, '\n', 0);
        let raw = text.take(e);
        let line = if raw.len() > 0 && raw.last() == '\r' {
            raw.drop_last()
        } else {
            raw
        };
        let rest = if 0 <= e && e < text.len() {
            text.skip(e + 1)
        } else {
            Seq::<char>::empty()
        };
        let m_rest = spec_prefix_map(rest);
        match spec_prefix_line(line) {
            Some(kv) => if m_rest.contains_key(kv.0) {
                m_rest
            } else {
                m_rest.insert(kv.0, kv.1)
            },
            None => m_rest,
        }
    }
}

/// Parses a pitch-prefix table.  The result holds exactly the bindings the
/// text denotes; a text denoting none is a configuration error.
#[verifier::rlimit(100)]
pub fn parse_prefix_map(text: &str) -> (r: Result<PrefixMap, SynthError>)
    ensures
        r matches Ok(m) ==> m@ == spec_prefix_map(text@),
        r matches Ok(m) ==> spec_prefix_map(text@) != Map::<int, Seq<char>>::empty(),
        r matches Err(e) ==> e == SynthError::EmptyConfig && spec_prefix_map(text@) == Map::<
            int,
            Seq<char>,
        >::empty(),
{
    let cs = str_to_chars(text);
    let n = cs.len();
    let mut m = PrefixMap::new();
    let mut pos: usize = 0;
    proof {
        assert(cs@.skip(0) =~= cs@);
        assert(m@.union_prefer_right(spec_prefix_map(cs@.skip(0))) =~= spec_prefix_map(cs@));
    }
    while pos < n
        invariant
            cs@ == text@,
            n == cs@.len(),
            pos <= n,
            m@.union_prefer_right(spec_prefix_map(cs@.skip(pos as int))) == spec_prefix_map(cs@),
        decreases n - pos,
    {
        let e = find_char_in(&cs, '\n', pos, n);
        let mut le = e;
        if le > pos && cs[le - 1] == '\r' {
            le -= 1;
        }
        let ghost rest = cs@.skip(pos as int);
        let ghost rest2 = if e < n {
            cs@.skip(e + 1int)
        } else {
            Seq::<char>::empty()
        };
        let ghost line = cs@.subrange(pos as int, le as int);
        proof {
            assert(forall|j: int| 0 <= j < e - pos ==> rest[j] == cs@[pos + j]);
            lemma_find_char_at(rest, '\n', 0, e - pos);
            assert(rest.take(e - pos) =~= cs@.subrange(pos as int, e as int));
            if le < e {
                assert(rest.take(e - pos).drop_last() =~= line);
            }
            if e < n {
                assert(rest.skip(e - pos + 1) =~= cs@.skip(e + 1int));
            }
        }
        let eqp = find_char_in(&cs, '=', pos, le);
        let ghost m_rest2 = spec_prefix_map(rest2);
        proof {
            assert(forall|j: int| 0 <= j < eqp - pos ==> line[j] == cs@[pos + j]);
            lemma_find_char_at(line, '=', 0, eqp - pos);
        }
        if eqp < le {
            let name = text.substring_char(pos, eqp);
            proof {
                assert(name@ =~= line.take(eqp - pos));
            }
            match crate::util::pitch_parser(name) {
                Ok(key) => {
                    let suffix = text.substring_char(eqp + 1, le).to_owned();
                    proof {
                        assert(suffix@ =~= line.skip(eqp - pos + 1));
                    }
                    let ghost old_map = m@;
                    m.insert(key, suffix);
                    proof {
                        let kv = spec_prefix_line(line)->Some_0;
                        if m_rest2.contains_key(kv.0) {
                            assert(m@.union_prefer_right(m_rest2) =~= old_map.union_prefer_right(
                                spec_prefix_map(rest),
                            ));
                        } else {
                            assert(spec_prefix_map(rest) =~= m_rest2.insert(kv.0, kv.1));
                            assert(m@.union_prefer_right(m_rest2) =~= old_map.union_prefer_right(
                                spec_prefix_map(rest),
                            ));
                        }
                    }
                },
                Err(_) => {
                    proof {
                        assert(spec_prefix_map(rest) == m_rest2);
                    }
                },
            }
        } else {
            proof {
                assert(spec_prefix_map(rest) == m_rest2);
            }
        }
        if e < n {
            pos = e + 1;
        } else {
            pos = n;
        }
        proof {
            assert(cs@.skip(pos as int) =~= rest2);
        }
    }
    proof {
        assert(cs@.skip(n as int) =~= Seq::<char>::empty());
        assert(m@.union_prefer_right(Map::empty()) =~= m@);
    }
    if m.is_empty() {
        Err(SynthError::EmptyConfig)
    } else {
        proof {
            let k = choose|k: int| m@.contains_key(k);
            assert(spec_prefix_map(text@).contains_key(k));
            assert(!Map::<int, Seq<char>>::empty().contains_key(k));
        }
        Ok(m)
    }
}

} // verus!
