use crate::maps::{lemma_map_values_insert, lemma_map_values_remove, lemma_submap_at};
use crate::ordmap::OrdMap;
use crate::text::{char_pos, chars_of, find_char, has_char, lemma_char_pos, lemma_char_pos_is, lines_of, slice_string};
use vstd::prelude::*;

verus! {

/// A map from strings to strings, as its characters.
pub type StrMap = Map<Seq<char>, Seq<char>>;

pub open spec fn str_map_view(m: Map<Seq<char>, String>) -> StrMap {
    m.map_values(|v: String| v@)
}

pub open spec fn opt_str_view(o: Option<String>) -> Option<Seq<char>> {
    match o {
        Some(s) => Some(s@),
        None => None,
    }
}

/// An INI-style configuration: properties before any section, and properties per section.
pub struct Cfg {
    pub root: OrdMap<String, String>,
    pub sections: OrdMap<String, OrdMap<String, String>>,
}

/// What a `Cfg` holds.
pub struct CfgView {
    pub root: StrMap,
    pub sections: Map<Seq<char>, StrMap>,
}

pub open spec fn sections_view(m: Map<Seq<char>, OrdMap<String, String>>) -> Map<Seq<char>, StrMap> {
    m.map_values(|s: OrdMap<String, String>| str_map_view(s@))
}

impl View for Cfg {
    type V = CfgView;

    open spec fn view(&self) -> CfgView {
        CfgView { root: str_map_view(self.root@), sections: sections_view(self.sections@) }
    }
}

/// The text of properties, one `key=value` line each.
pub open spec fn render_props(s: Seq<(String, String)>) -> Seq<char>
    decreases s.len(),
{
    if s.len() == 0 {
        seq![]
    } else {
        render_props(s.drop_last()) + s.last().0@ + seq!['='] + s.last().1@ + seq!['\n']
    }
}

/// The text of sections: each a `[name]` line, its properties, and an empty line.
pub open spec fn render_sections(s: Seq<(String, OrdMap<String, String>)>) -> Seq<char>
    decreases s.len(),
{
    if s.len() == 0 {
        seq![]
    } else {
        render_sections(s.drop_last()) + seq!['['] + s.last().0@ + seq![']', '\n'] + render_props(
            s.last().1.seq(),
        ) + seq!['\n']
    }
}

/// The text of a `Cfg`: root properties, an empty line after them if there are any, then the
/// sections, everything in key order.
pub open spec fn render_cfg(c: Cfg) -> Seq<char> {
    render_props(c.root.seq()) + (if c.root.seq().len() > 0 {
        seq!['\n']
    } else {
        seq![]
    }) + render_sections(c.sections.seq())
}

/// Why a CFG text was refused.
#[derive(Debug, Clone, Copy, PartialEq, Eq)]
pub enum CfgError {
    /// A line starts with `[` but does not end with `]` ("section name missing trailing bracket").
    SectionMissingBracket,
    /// A line is neither empty, nor a section header, nor holds `=` ("line missing key-value separator").
    LineMissingSeparator,
}

/// Where reading a CFG text stands: what was read, and the section that properties go to.
pub struct ParseState {
    pub cfg: CfgView,
    pub last: Option<Seq<char>>,
}

pub open spec fn empty_cfg_view() -> CfgView {
    CfgView { root: Map::empty(), sections: Map::empty() }
}

/// Reading one line.
pub open spec fn parse_step(st: ParseState, l: Seq<char>) -> Result<ParseState, CfgError> {
    if l.len() == 0 {
        Ok(st)
    } else if l[0] == '[' {
        if l.len() >= 2 && l.last() == ']' {
            let title = l.subrange(1, l.len() - 1);
            let sections = if st.cfg.sections.contains_key(title) {
                st.cfg.sections
            } else {
                st.cfg.sections.insert(title, Map::empty())
            };
            Ok(ParseState { cfg: CfgView { root: st.cfg.root, sections }, last: Some(title) })
        } else {
            Err(CfgError::SectionMissingBracket)
        }
    } else if has_char(l, '=') {
        let j = char_pos(l, '=');
        let key = l.subrange(0, j);
        let value = l.subrange(j + 1, l.len() as int);
        match st.last {
            Some(t) => Ok(
                ParseState {
                    cfg: CfgView {
                        root: st.cfg.root,
                        sections: st.cfg.sections.insert(t, st.cfg.sections[t].insert(key, value)),
                    },
                    last: st.last,
                },
            ),
            None => Ok(
                ParseState {
                    cfg: CfgView { root: st.cfg.root.insert(key, value), sections: st.cfg.sections },
                    last: None,
                },
            ),
        }
    } else {
        Err(CfgError::LineMissingSeparator)
    }
}

/// Reading lines in order, stopping at the first refused one.
pub open spec fn parse_lines(ls: Seq<Seq<char>>) -> Result<ParseState, CfgError>
    decreases ls.len(),
{
    if ls.len() == 0 {
        Ok(ParseState { cfg: empty_cfg_view(), last: None })
    } else {
        match parse_lines(ls.drop_last()) {
            Ok(st) => parse_step(st, ls.last()),
            Err(e) => Err(e),
        }
    }
}

/// What reading a CFG text gives.
pub open spec fn parse_cfg(text: Seq<char>) -> Result<CfgView, CfgError> {
    match parse_lines(lines_of(text)) {
        Ok(st) => Ok(st.cfg),
        Err(e) => Err(e),
    }
}

/// Once a line is refused, the lines after it change nothing.
pub proof fn lemma_parse_lines_err(a: Seq<Seq<char>>, b: Seq<Seq<char>>, e: CfgError)
    requires
        parse_lines(a) == Err::<ParseState, CfgError>(e),
    ensures
        parse_lines(a + b) == Err::<ParseState, CfgError>(e),
    decreases b.len(),
{
    if b.len() == 0 {
        assert(a + b =~= a);
    } else {
        lemma_parse_lines_err(a, b.drop_last(), e);
        assert((a + b).drop_last() =~= a + b.drop_last());
    }
}

/// `b` holds every key of `a`, at the top and in each section of `a`.
pub open spec fn cfg_keys_kept(a: CfgView, b: CfgView) -> bool {
    &&& a.root.dom().subset_of(b.root.dom())
    &&& forall|t: Seq<char>|
        #[trigger] a.sections.contains_key(t) ==> b.sections.contains_key(t) && a.sections[t].dom().subset_of(
            b.sections[t].dom(),
        )
}

proof fn lemma_parse_step_keeps(st: ParseState, l: Seq<char>)
    requires
        parse_step(st, l) is Ok,
    ensures
        cfg_keys_kept(st.cfg, parse_step(st, l)->Ok_0.cfg),
{
    let c = st.cfg;
    let d = parse_step(st, l)->Ok_0.cfg;
    assert forall|t: Seq<char>| #[trigger] c.sections.contains_key(t) implies d.sections.contains_key(t)
        && c.sections[t].dom().subset_of(d.sections[t].dom()) by {
        if l.len() > 0 && l[0] != '[' && has_char(l, '=') {
            if let Some(u) = st.last {
                if u == t {
                    let j = char_pos(l, '=');
                    assert(d.sections[t] == c.sections[t].insert(l.subrange(0, j), l.subrange(j + 1, l.len() as int)));
                }
            }
        }
    }
}

/// Reading lines only ever adds keys: what was read from the first lines keeps every key, at the
/// top and in every section, whatever lines follow (a repeated section header continues the
/// section).
pub proof fn lemma_parse_lines_keeps_keys(a: Seq<Seq<char>>, b: Seq<Seq<char>>)
    requires
        parse_lines(a + b) is Ok,
    ensures
        parse_lines(a) is Ok,
        cfg_keys_kept(parse_lines(a)->Ok_0.cfg, parse_lines(a + b)->Ok_0.cfg),
    decreases b.len(),
{
    if b.len() == 0 {
        assert(a + b =~= a);
    } else {
        let b2 = b.drop_last();
        assert((a + b).drop_last() =~= a + b2);
        assert((a + b).last() == b.last());
        if let Err(e) = parse_lines(a + b2) {
            assert(parse_lines(a + b) == Err::<ParseState, CfgError>(e));
        }
        lemma_parse_lines_keeps_keys(a, b2);
        let st = parse_lines(a + b2)->Ok_0;
        lemma_parse_step_keeps(st, b.last());
        let x = parse_lines(a)->Ok_0.cfg;
        let y = st.cfg;
        let z = parse_lines(a + b)->Ok_0.cfg;
        assert forall|t: Seq<char>| #[trigger] x.sections.contains_key(t) implies z.sections.contains_key(t)
            && x.sections[t].dom().subset_of(z.sections[t].dom()) by {
            assert(y.sections.contains_key(t));
        }
    }
}

/// Reading a line `key=value` (the key holding no `=` and not starting with `[`) after some lines
/// sets that key to that value in the section being read, or at the top before any section, and
/// changes no other key.
pub proof fn lemma_parse_key_line(ls: Seq<Seq<char>>, key: Seq<char>, value: Seq<char>)
    requires
        parse_lines(ls) is Ok,
        forall|j: int| 0 <= j < key.len() ==> key[j] != '=',
        key.len() > 0 ==> key[0] != '[',
    ensures
        ({
            let st = parse_lines(ls)->Ok_0;
            let r = parse_lines(ls.push(key + seq!['='] + value));
            &&& r is Ok
            &&& match st.last {
                Some(t) => r->Ok_0.cfg.sections == st.cfg.sections.insert(t, st.cfg.sections[t].insert(key, value))
                    && r->Ok_0.cfg.root == st.cfg.root,
                None => r->Ok_0.cfg.root == st.cfg.root.insert(key, value) && r->Ok_0.cfg.sections
                    == st.cfg.sections,
            }
        }),
{
    let l = key + seq!['='] + value;
    assert(ls.push(l).drop_last() =~= ls);
    assert(l[key.len() as int] == '=');
    assert forall|j: int| 0 <= j < key.len() implies l[j] != '=' by {
        assert(l[j] == key[j]);
    }
    lemma_char_pos_is(l, '=', key.len() as int);
    assert(l.subrange(0, key.len() as int) =~= key);
    assert(l.subrange(key.len() + 1int, l.len() as int) =~= value);
    if key.len() > 0 {
        assert(l[0] == key[0]);
    }
}

/// A line `key=value` that was read stays read: whatever lines follow it, headers included, the
/// result holds the key in the section that was being read at that line, or at the top before
/// any section.
pub proof fn lemma_read_key_stays(ls: Seq<Seq<char>>, key: Seq<char>, value: Seq<char>, rest: Seq<Seq<char>>)
    requires
        parse_lines(ls.push(key + seq!['='] + value) + rest) is Ok,
        forall|j: int| 0 <= j < key.len() ==> key[j] != '=',
        key.len() > 0 ==> key[0] != '[',
    ensures
        parse_lines(ls) is Ok,
        ({
            let r = parse_lines(ls.push(key + seq!['='] + value) + rest)->Ok_0.cfg;
            match parse_lines(ls)->Ok_0.last {
                Some(t) => r.sections.contains_key(t) && r.sections[t].contains_key(key),
                None => r.root.contains_key(key),
            }
        }),
{
    let l = key + seq!['='] + value;
    let a = ls.push(l);
    lemma_parse_lines_keeps_keys(a, rest);
    assert(a.drop_last() =~= ls);
    if let Err(e) = parse_lines(ls) {
        assert(parse_lines(a) == Err::<ParseState, CfgError>(e));
    }
    lemma_parse_key_line(ls, key, value);
    let st = parse_lines(ls)->Ok_0;
    let mid = parse_lines(a)->Ok_0.cfg;
    if let Some(t) = st.last {
        assert(mid.sections.contains_key(t));
        assert(mid.sections[t].dom().contains(key));
    } else {
        assert(mid.root.dom().contains(key));
    }
}

/// Every state reached has its current section among the sections.
pub proof fn lemma_parse_lines_last(ls: Seq<Seq<char>>)
    ensures
        parse_lines(ls) matches Ok(st) ==> (st.last matches Some(t)
            ==> st.cfg.sections.contains_key(t)),
    decreases ls.len(),
{
    if ls.len() > 0 {
        lemma_parse_lines_last(ls.drop_last());
    }
}

impl Cfg {
    pub fn new() -> (r: Self)
        ensures
            r@ == empty_cfg_view(),
    {
        let r = Cfg { root: OrdMap::new(), sections: OrdMap::new() };
        proof {
            assert(r@.root =~= Map::empty());
            assert(r@.sections =~= Map::empty());
        }
        r
    }

    /// Reads one line (the characters `a..e` of `text`) into `self`, `last` being the section
    /// that properties go to.
    fn read_line(
        &mut self,
        last: &mut Option<String>,
        text: &str,
        chars: &Vec<char>,
        a: usize,
        e: usize,
    ) -> (r: Result<(), CfgError>)
        requires
            chars@ == text@,
            a <= e <= chars.len(),
            opt_str_view(*old(last)) matches Some(t) ==> old(self)@.sections.contains_key(t),
        ensures
            match parse_step(
                ParseState { cfg: old(self)@, last: opt_str_view(*old(last)) },
                chars@.subrange(a as int, e as int),
            ) {
                Ok(st) => r is Ok && final(self)@ == st.cfg && opt_str_view(*final(last)) == st.last,
                Err(err) => r == Err::<(), CfgError>(err),
            },
    {
        let ghost line = chars@.subrange(a as int, e as int);
        if e == a {
        } else if chars[a] == '[' {
            if e - a >= 2 && chars[e - 1] == ']' {
                let title = slice_string(text, a + 1, e - 1);
                proof {
                    assert(title@ =~= line.subrange(1, line.len() - 1));
                }
                if !self.sections.contains_key(&title) {
                    let ghost old_sections = self.sections@;
                    let empty: OrdMap<String, String> = OrdMap::new();
                    let ghost fresh = empty;
                    self.sections.insert(title.clone(), empty);
                    proof {
                        assert(str_map_view(fresh@) =~= Map::empty());
                        lemma_map_values_insert(
                            old_sections,
                            title@,
                            fresh,
                            |s: OrdMap<String, String>| str_map_view(s@),
                        );
                    }
                }
                *last = Some(title);
            } else {
                return Err(CfgError::SectionMissingBracket);
            }
        } else {
            let eq = find_char(chars, '=', a, e);
            proof {
                assert(chars@.subrange(a as int, e as int) =~= line);
                lemma_char_pos(line, '=');
            }
            if eq < e {
                let key = slice_string(text, a, eq);
                let value = slice_string(text, eq + 1, e);
                proof {
                    assert(key@ =~= line.subrange(0, char_pos(line, '=')));
                    assert(value@ =~= line.subrange(char_pos(line, '=') + 1, line.len() as int));
                }
                match &*last {
                    Some(t) => {
                        let ghost old_sections = self.sections@;
                        let mut section = self.sections.remove(t).unwrap();
                        let ghost old_section = section@;
                        let ghost k = key@;
                        let ghost v = value;
                        section.insert(key, value);
                        let ghost sec = section;
                        self.sections.insert(t.clone(), section);
                        proof {
                            lemma_map_values_insert(old_section, k, v, |v: String| v@);
                            lemma_map_values_insert(
                                old_sections.remove(t@),
                                t@,
                                sec,
                                |s: OrdMap<String, String>| str_map_view(s@),
                            );
                            lemma_map_values_remove(
                                old_sections,
                                t@,
                                |s: OrdMap<String, String>| str_map_view(s@),
                            );
                            assert(self.sections@ =~= old_sections.remove(t@).insert(t@, sec));
                            assert(old_sections.remove(t@).insert(t@, sec) =~= old_sections.insert(t@, sec));
                            assert(str_map_view(sec@) == str_map_view(old_section).insert(k, v@));
                            assert(sections_view(self.sections@) == sections_view(old_sections).insert(t@, str_map_view(old_section).insert(k, v@)));
                        }
                    },
                    None => {
                        let ghost old_root = self.root@;
                        let ghost k = key@;
                        let ghost v = value;
                        self.root.insert(key, value);
                        proof {
                            lemma_map_values_insert(old_root, k, v, |v: String| v@);
                        }
                    },
                }
            } else {
                return Err(CfgError::LineMissingSeparator);
            }
        }
        Ok(())
    }

    /// Reads a CFG text: lines `key=value`, and `[section]` headers after which properties go to
    /// that section; empty lines are skipped, and a later key replaces an earlier one.
    pub fn read(text: &str) -> (r: Result<Cfg, CfgError>)
        ensures
            match r {
                Ok(c) => parse_cfg(text@) == Ok::<CfgView, CfgError>(c@),
                Err(e) => parse_cfg(text@) == Err::<CfgView, CfgError>(e),
            },
    {
        let chars = chars_of(text);
        let mut cfg = Cfg::new();
        let mut last: Option<String> = None;
        let mut pos: usize = 0;
        let ghost mut done: Seq<Seq<char>> = seq![];
        proof {
            assert(text@.skip(0) =~= text@);
            assert(done + lines_of(text@) =~= lines_of(text@));
        }
        while pos < chars.len()
            invariant
                chars@ == text@,
                pos <= chars.len(),
                lines_of(text@) == done + lines_of(text@.skip(pos as int)),
                parse_lines(done) == Ok::<ParseState, CfgError>(
                    ParseState { cfg: cfg@, last: opt_str_view(last) },
                ),
            decreases chars.len() - pos,
        {
            let nl = find_char(&chars, '\n', pos, chars.len());
            let ghost s = text@.skip(pos as int);
            proof {
                assert(chars@.subrange(pos as int, chars.len() as int) =~= s);
                lemma_char_pos(s, '\n');
            }
            let mut end = nl;
            if nl < chars.len() && end > pos && chars[end - 1] == '\r' {
                end = end - 1;
            }
            let ghost line = chars@.subrange(pos as int, end as int);
            let ghost rest: Seq<Seq<char>> = if nl < chars.len() {
                lines_of(text@.skip(nl + 1))
            } else {
                Seq::empty()
            };
            proof {
                if nl < chars.len() {
                    assert(line =~= crate::text::strip_cr(s.subrange(0, nl - pos)));
                    assert(s.skip(nl - pos + 1) =~= text@.skip(nl + 1));
                    assert(lines_of(s) == seq![line] + lines_of(text@.skip(nl + 1)));
                } else {
                    assert(line =~= s);
                    assert(lines_of(s) == seq![line]);
                }
                assert(lines_of(text@) =~= done.push(line) + rest);
                assert(done.push(line).drop_last() =~= done);
                lemma_parse_lines_last(done);
            }
            match cfg.read_line(&mut last, text, &chars, pos, end) {
                Ok(()) => {},
                Err(err) => {
                    proof {
                        lemma_parse_lines_err(done.push(line), rest, err);
                    }
                    return Err(err);
                },
            }
            proof {
                done = done.push(line);
                if nl >= chars.len() {
                    assert(text@.skip(chars.len() as int) =~= Seq::<char>::empty());
                }
            }
            if nl < chars.len() {
                pos = nl + 1;
            } else {
                pos = chars.len();
            }
        }
        proof {
            assert(text@.skip(pos as int) =~= Seq::<char>::empty());
            assert(done + Seq::<Seq<char>>::empty() =~= done);
        }
        Ok(cfg)
    }

    fn render_props_into(out: &mut String, props: &OrdMap<String, String>)
        ensures
            final(out)@ == old(out)@ + render_props(props.seq()),
    {
        let n = props.len();
        let mut i: usize = 0;
        let ghost start = out@;
        proof {
            assert(props.seq().take(0) =~= Seq::<(String, String)>::empty());
            assert(start + Seq::<char>::empty() =~= start);
        }
        while i < n
            invariant
                n == props.seq().len(),
                i <= n,
                out@ == start + render_props(props.seq().take(i as int)),
            decreases n - i,
        {
            let entry = props.entry_at(i);
            out.append(entry.0.as_str());
            out.append("=");
            out.append(entry.1.as_str());
            out.append("\n");
            proof {
                reveal_strlit("=");
                reveal_strlit("\n");
                assert(props.seq().take(i + 1).drop_last() =~= props.seq().take(i as int));
                assert(out@ =~= start + render_props(props.seq().take(i + 1)));
            }
            i = i + 1;
        }
        proof {
            assert(props.seq().take(n as int) =~= props.seq());
        }
    }

    /// The CFG text of `self`; reading it back gives `self` again when every key, value and
    /// section name can be written.
    pub fn render(&self) -> (r: String)
        ensures
            r@ == render_cfg(*self),
            cfg_writable(self@) ==> parse_cfg(r@) == Ok::<CfgView, CfgError>(self@),
    {
        let mut out = String::new();
        Self::render_props_into(&mut out, &self.root);
        if !self.root.is_empty() {
            out.append("\n");
            proof {
                reveal_strlit("\n");
            }
        }
        let ghost head = out@;
        let n = self.sections.len();
        let mut i: usize = 0;
        proof {
            assert(self.sections.seq().take(0) =~= Seq::<(String, OrdMap<String, String>)>::empty());
            assert(head + Seq::<char>::empty() =~= head);
        }
        while i < n
            invariant
                n == self.sections.seq().len(),
                i <= n,
                out@ == head + render_sections(self.sections.seq().take(i as int)),
                forall|j: int| 0 <= j < i ==> (#[trigger] self.sections.seq()[j]).1.inv(),
            decreases n - i,
        {
            let entry = self.sections.entry_at(i);
            proof {
                use_type_invariant(&entry.1);
            }
            out.append("[");
            out.append(entry.0.as_str());
            out.append("]\n");
            Self::render_props_into(&mut out, &entry.1);
            out.append("\n");
            proof {
                reveal_strlit("[");
                reveal_strlit("]\n");
                reveal_strlit("\n");
                assert(self.sections.seq().take(i + 1).drop_last() =~= self.sections.seq().take(
                    i as int,
                ));
                assert(out@ =~= head + render_sections(self.sections.seq().take(i + 1)));
            }
            i = i + 1;
        }
        proof {
            assert(self.sections.seq().take(n as int) =~= self.sections.seq());
            assert(out@ =~= render_cfg(*self));
            use_type_invariant(&self.root);
            use_type_invariant(&self.sections);
            if cfg_writable(self@) {
                lemma_read_render(*self);
            }
        }
        out
    }
}

} // verus!

verus! {

/// A change of one string: the new value, if it differs.
pub struct StrPatch {
    pub value: Option<String>,
}

impl View for StrPatch {
    type V = Option<Seq<char>>;

    open spec fn view(&self) -> Option<Seq<char>> {
        opt_str_view(self.value)
    }
}

pub open spec fn str_patch_diff(old: Seq<char>, new: Seq<char>) -> Option<Seq<char>> {
    if old != new {
        Some(new)
    } else {
        None
    }
}

pub open spec fn str_patch_apply(p: Option<Seq<char>>, old: Seq<char>) -> Seq<char> {
    match p {
        Some(v) => v,
        None => old,
    }
}

/// Changes of a string map: new values at keys it had, and keys it did not have.
pub struct MapPatch {
    pub changed: OrdMap<String, StrPatch>,
    pub added: OrdMap<String, String>,
}

pub struct MapPatchView {
    pub changed: Map<Seq<char>, Option<Seq<char>>>,
    pub added: StrMap,
}

pub open spec fn str_patches_view(m: Map<Seq<char>, StrPatch>) -> Map<Seq<char>, Option<Seq<char>>> {
    m.map_values(|p: StrPatch| p@)
}

impl View for MapPatch {
    type V = MapPatchView;

    open spec fn view(&self) -> MapPatchView {
        MapPatchView { changed: str_patches_view(self.changed@), added: str_map_view(self.added@) }
    }
}

/// The one-way difference of string maps; keys that `new` lacks are not recorded.
pub open spec fn map_patch_diff(old: StrMap, new: StrMap) -> MapPatchView {
    MapPatchView {
        changed: Map::new(
            |k: Seq<char>| old.contains_key(k) && new.contains_key(k) && old[k] != new[k],
            |k: Seq<char>| Some(new[k]),
        ),
        added: Map::new(
            |k: Seq<char>| new.contains_key(k) && !old.contains_key(k),
            |k: Seq<char>| new[k],
        ),
    }
}

pub open spec fn map_patch_is_empty(p: MapPatchView) -> bool {
    p.changed.dom().is_empty() && p.added.dom().is_empty()
}

/// Applies changes to the keys that `old` has, then adds the added keys.
pub open spec fn map_patch_apply(p: MapPatchView, old: StrMap) -> StrMap {
    Map::new(
        |k: Seq<char>| old.contains_key(k),
        |k: Seq<char>|
            if p.changed.contains_key(k) {
                str_patch_apply(p.changed[k], old[k])
            } else {
                old[k]
            },
    ).union_prefer_right(p.added)
}

/// Changes of the sections: per section kept, the changes of its properties; and new sections.
pub struct SectionsPatch {
    pub changed: OrdMap<String, MapPatch>,
    pub added: OrdMap<String, OrdMap<String, String>>,
}

pub struct SectionsPatchView {
    pub changed: Map<Seq<char>, MapPatchView>,
    pub added: Map<Seq<char>, StrMap>,
}

pub open spec fn map_patches_view(m: Map<Seq<char>, MapPatch>) -> Map<Seq<char>, MapPatchView> {
    m.map_values(|p: MapPatch| p@)
}

impl View for SectionsPatch {
    type V = SectionsPatchView;

    open spec fn view(&self) -> SectionsPatchView {
        SectionsPatchView { changed: map_patches_view(self.changed@), added: sections_view(self.added@) }
    }
}

pub open spec fn sections_patch_diff(
    old: Map<Seq<char>, StrMap>,
    new: Map<Seq<char>, StrMap>,
) -> SectionsPatchView {
    SectionsPatchView {
        changed: Map::new(
            |k: Seq<char>|
                old.contains_key(k) && new.contains_key(k) && !map_patch_is_empty(
                    map_patch_diff(old[k], new[k]),
                ),
            |k: Seq<char>| map_patch_diff(old[k], new[k]),
        ),
        added: Map::new(
            |k: Seq<char>| new.contains_key(k) && !old.contains_key(k),
            |k: Seq<char>| new[k],
        ),
    }
}

pub open spec fn sections_patch_is_empty(p: SectionsPatchView) -> bool {
    p.changed.dom().is_empty() && p.added.dom().is_empty()
}

pub open spec fn sections_patch_apply(
    p: SectionsPatchView,
    old: Map<Seq<char>, StrMap>,
) -> Map<Seq<char>, StrMap> {
    Map::new(
        |k: Seq<char>| old.contains_key(k),
        |k: Seq<char>|
            if p.changed.contains_key(k) {
                map_patch_apply(p.changed[k], old[k])
            } else {
                old[k]
            },
    ).union_prefer_right(p.added)
}

/// The difference between two `Cfg`s.
pub struct CfgPatch {
    pub root: MapPatch,
    pub sections: SectionsPatch,
}

pub struct CfgPatchView {
    pub root: MapPatchView,
    pub sections: SectionsPatchView,
}

impl View for CfgPatch {
    type V = CfgPatchView;

    open spec fn view(&self) -> CfgPatchView {
        CfgPatchView { root: self.root@, sections: self.sections@ }
    }
}

pub open spec fn cfg_patch_diff(old: CfgView, new: CfgView) -> CfgPatchView {
    CfgPatchView {
        root: map_patch_diff(old.root, new.root),
        sections: sections_patch_diff(old.sections, new.sections),
    }
}

pub open spec fn cfg_patch_is_empty(p: CfgPatchView) -> bool {
    map_patch_is_empty(p.root) && sections_patch_is_empty(p.sections)
}

pub open spec fn cfg_patch_apply(p: CfgPatchView, old: CfgView) -> CfgView {
    CfgView {
        root: map_patch_apply(p.root, old.root),
        sections: sections_patch_apply(p.sections, old.sections),
    }
}

impl StrPatch {
    pub fn diff(old: String, new: String) -> (r: Self)
        ensures
            r@ == str_patch_diff(old@, new@),
    {
        if old != new {
            StrPatch { value: Some(new) }
        } else {
            StrPatch { value: None }
        }
    }

    pub fn is_empty(&self) -> (r: bool)
        ensures
            r == (self@ is None),
    {
        self.value.is_none()
    }

    pub fn apply_to_old(self, target: &mut String)
        ensures
            final(target)@ == str_patch_apply(self@, old(target)@),
    {
        if let Some(value) = self.value {
            *target = value;
        }
    }
}

/// `old` with the changes at the keys outside `pending` applied.
pub open spec fn apply_changed_except(
    changed: Map<Seq<char>, Option<Seq<char>>>,
    old: StrMap,
    pending: Set<Seq<char>>,
) -> StrMap {
    Map::new(
        |k: Seq<char>| old.contains_key(k),
        |k: Seq<char>|
            if changed.contains_key(k) && !pending.contains(k) {
                str_patch_apply(changed[k], old[k])
            } else {
                old[k]
            },
    )
}

proof fn lemma_apply_changed_step(
    changed: Map<Seq<char>, Option<Seq<char>>>,
    old: StrMap,
    pending: Set<Seq<char>>,
    k: Seq<char>,
)
    requires
        pending.contains(k),
        changed.contains_key(k),
    ensures
        old.contains_key(k) ==> apply_changed_except(changed, old, pending.remove(k))
            == apply_changed_except(changed, old, pending).insert(
            k,
            str_patch_apply(changed[k], old[k]),
        ),
        !old.contains_key(k) ==> apply_changed_except(changed, old, pending.remove(k))
            == apply_changed_except(changed, old, pending),
        old.contains_key(k) ==> apply_changed_except(changed, old, pending)[k] == old[k],
{
    if old.contains_key(k) {
        assert(apply_changed_except(changed, old, pending.remove(k)) =~= apply_changed_except(
            changed,
            old,
            pending,
        ).insert(k, str_patch_apply(changed[k], old[k])));
    } else {
        assert(apply_changed_except(changed, old, pending.remove(k)) =~= apply_changed_except(
            changed,
            old,
            pending,
        ));
    }
}

impl MapPatch {
    /// The changes that make `old` agree with `new` on every key of `new`.
    pub fn diff(old: OrdMap<String, String>, new: OrdMap<String, String>) -> (r: Self)
        ensures
            r@ == map_patch_diff(str_map_view(old@), str_map_view(new@)),
    {
        let ghost o0 = str_map_view(old@);
        let ghost n0 = str_map_view(new@);
        let ghost full = map_patch_diff(o0, n0);
        let mut old = old;
        let mut new = new;
        let mut changed: OrdMap<String, StrPatch> = OrdMap::new();
        let mut added: OrdMap<String, String> = OrdMap::new();
        proof {
            assert(o0.remove_keys(n0.dom() - new@.dom()) =~= o0);
            assert(full.changed.remove_keys(new@.dom()) =~= Map::empty());
            assert(full.added.remove_keys(new@.dom()) =~= Map::empty());
            assert(str_patches_view(changed@) =~= Map::empty());
            assert(str_map_view(added@) =~= Map::empty());
            new.lemma_finite();
        }
        while !new.is_empty()
            invariant
                str_map_view(new@).submap_of(n0),
                new@.dom().finite(),
                str_map_view(old@) == o0.remove_keys(n0.dom() - new@.dom()),
                str_patches_view(changed@) == full.changed.remove_keys(new@.dom()),
                str_map_view(added@) == full.added.remove_keys(new@.dom()),
                full == map_patch_diff(o0, n0),
            decreases new@.len(),
        {
            let ghost prev_new = new@;
            let ghost prev_old = old@;
            let ghost prev_changed = changed@;
            let ghost prev_added = added@;
            let (key, new_value) = new.pop_last().unwrap();
            proof {
                new.lemma_finite();
                assert(new@.dom() =~= prev_new.dom().remove(key@));
                assert(str_map_view(prev_new).contains_key(key@));
                assert(str_map_view(prev_new)[key@] == new_value@);
                lemma_submap_at(str_map_view(prev_new), n0, key@);
                assert(!(n0.dom() - prev_new.dom()).contains(key@));
                assert(str_map_view(prev_old).contains_key(key@) == prev_old.contains_key(key@));
                assert(prev_old.contains_key(key@) == o0.contains_key(key@));
                if o0.contains_key(key@) {
                    assert(str_map_view(prev_old)[key@] == o0[key@]);
                }
            }
            let ghost kv = key@;
            match old.remove(&key) {
                Some(old_value) => {
                    let patch = StrPatch::diff(old_value, new_value);
                    if !patch.is_empty() {
                        let ghost pv = patch;
                        changed.insert(key, patch);
                        proof {
                            lemma_map_values_insert(prev_changed, kv, pv, |p: StrPatch| p@);
                        }
                    }
                    proof {
                        lemma_map_values_remove(prev_old, kv, |v: String| v@);
                    }
                },
                None => {
                    let ghost nv = new_value;
                    added.insert(key, new_value);
                    proof {
                        lemma_map_values_insert(prev_added, kv, nv, |v: String| v@);
                        assert(old@ =~= prev_old);
                    }
                },
            }
            proof {
                assert(str_map_view(old@) =~= o0.remove_keys(n0.dom() - new@.dom()));
                assert(str_patches_view(changed@) =~= full.changed.remove_keys(new@.dom()));
                assert(str_map_view(added@) =~= full.added.remove_keys(new@.dom()));
                assert(str_map_view(new@) =~= str_map_view(prev_new).remove(kv));
            }
        }
        proof {
            assert(full.changed.remove_keys(new@.dom()) =~= full.changed);
            assert(full.added.remove_keys(new@.dom()) =~= full.added);
        }
        MapPatch { changed, added }
    }

    pub fn is_empty(&self) -> (r: bool)
        ensures
            r == map_patch_is_empty(self@),
    {
        let a = self.changed.is_empty();
        let b = self.added.is_empty();
        proof {
            if a {
                assert(self@.changed =~= Map::empty());
            } else {
                assert(!(self.changed@ =~= Map::empty()));
                let k = choose|k: Seq<char>| #[trigger] self.changed@.contains_key(k);
                assert(self@.changed.dom().contains(k));
            }
            if b {
                assert(self@.added =~= Map::empty());
            } else {
                assert(!(self.added@ =~= Map::empty()));
                let k = choose|k: Seq<char>| #[trigger] self.added@.contains_key(k);
                assert(self@.added.dom().contains(k));
            }
        }
        a && b
    }

    /// Applies the changes to the keys that `target` has, then inserts the added keys.
    pub fn apply_to_old(self, target: &mut OrdMap<String, String>)
        ensures
            str_map_view(final(target)@) == map_patch_apply(self@, str_map_view(old(target)@)),
    {
        let ghost p0 = self@;
        let ghost t0 = str_map_view(target@);
        let mut changed = self.changed;
        let mut added = self.added;
        let ghost phase1 = Map::new(
            |k: Seq<char>| t0.contains_key(k),
            |k: Seq<char>|
                if p0.changed.contains_key(k) {
                    str_patch_apply(p0.changed[k], t0[k])
                } else {
                    t0[k]
                },
        );
        proof {
            assert(str_patches_view(changed@).submap_of(p0.changed));
            changed.lemma_finite();
            assert(apply_changed_except(p0.changed, t0, changed@.dom()) =~= t0);
        }
        while !changed.is_empty()
            invariant
                p0 == (MapPatchView { changed: p0.changed, added: str_map_view(added@) }),
                str_patches_view(changed@).submap_of(p0.changed),
                changed@.dom().finite(),
                str_map_view(target@) == apply_changed_except(p0.changed, t0, changed@.dom()),
            decreases changed@.len(),
        {
            let ghost prev = changed@;
            let ghost prev_t = target@;
            let (key, patch) = changed.pop_last().unwrap();
            let ghost kv = key@;
            proof {
                changed.lemma_finite();
                assert(str_patches_view(prev).contains_key(kv));
                lemma_submap_at(str_patches_view(prev), p0.changed, kv);
                assert(str_map_view(prev_t).contains_key(kv) == prev_t.contains_key(kv));
                lemma_apply_changed_step(p0.changed, t0, prev.dom(), kv);
                assert(changed@.dom() =~= prev.dom().remove(kv));
            }
            match target.remove(&key) {
                Some(mut value) => {
                    proof {
                        assert(str_map_view(prev_t).contains_key(kv));
                        assert(value@ == str_map_view(prev_t)[kv]);
                        assert(value@ == t0[kv]);
                    }
                    patch.apply_to_old(&mut value);
                    let ghost vv = value;
                    target.insert(key, value);
                    proof {
                        lemma_map_values_insert(prev_t.remove(kv), kv, vv, |v: String| v@);
                        lemma_map_values_remove(prev_t, kv, |v: String| v@);
                        assert(str_map_view(target@) == str_map_view(prev_t).remove(kv).insert(
                            kv,
                            str_patch_apply(p0.changed[kv], t0[kv]),
                        ));
                    }
                },
                None => {},
            }
            proof {
                assert(changed@.dom() =~= prev.dom().remove(kv));
                assert(str_patches_view(changed@) =~= str_patches_view(prev).remove(kv));

            }
        }
        proof {
            assert(str_map_view(target@) =~= phase1);
            assert(str_map_view(added@).submap_of(p0.added));
            added.lemma_finite();
        }
        while !added.is_empty()
            invariant
                str_map_view(added@).submap_of(p0.added),
                added@.dom().finite(),
                str_map_view(target@) == phase1.union_prefer_right(p0.added.remove_keys(added@.dom())),
            decreases added@.len(),
        {
            let ghost prev = added@;
            let ghost prev_t = target@;
            let (key, value) = added.pop_last().unwrap();
            let ghost kv = key@;
            let ghost vv = value;
            proof {
                added.lemma_finite();
                assert(str_map_view(prev).contains_key(kv));
                lemma_submap_at(str_map_view(prev), p0.added, kv);
                assert(added@.dom() =~= prev.dom().remove(kv));
                assert(str_map_view(added@) =~= str_map_view(prev).remove(kv));
            }
            target.insert(key, value);
            proof {
                lemma_map_values_insert(prev_t, kv, vv, |v: String| v@);
                assert(str_map_view(target@) =~= phase1.union_prefer_right(
                    p0.added.remove_keys(added@.dom()),
                ));
            }
        }
        proof {
            assert(p0.added.remove_keys(added@.dom()) =~= p0.added);
        }
    }
}

/// `old` sections with the changes at the sections outside `pending` applied.
pub open spec fn apply_sections_changed_except(
    changed: Map<Seq<char>, MapPatchView>,
    old: Map<Seq<char>, StrMap>,
    pending: Set<Seq<char>>,
) -> Map<Seq<char>, StrMap> {
    Map::new(
        |k: Seq<char>| old.contains_key(k),
        |k: Seq<char>|
            if changed.contains_key(k) && !pending.contains(k) {
                map_patch_apply(changed[k], old[k])
            } else {
                old[k]
            },
    )
}

proof fn lemma_apply_sections_changed_step(
    changed: Map<Seq<char>, MapPatchView>,
    old: Map<Seq<char>, StrMap>,
    pending: Set<Seq<char>>,
    k: Seq<char>,
)
    requires
        pending.contains(k),
        changed.contains_key(k),
    ensures
        old.contains_key(k) ==> apply_sections_changed_except(changed, old, pending.remove(k))
            == apply_sections_changed_except(changed, old, pending).insert(
            k,
            map_patch_apply(changed[k], old[k]),
        ),
        !old.contains_key(k) ==> apply_sections_changed_except(changed, old, pending.remove(k))
            == apply_sections_changed_except(changed, old, pending),
        old.contains_key(k) ==> apply_sections_changed_except(changed, old, pending)[k] == old[k],
{
    if old.contains_key(k) {
        assert(apply_sections_changed_except(changed, old, pending.remove(k))
            =~= apply_sections_changed_except(changed, old, pending).insert(
            k,
            map_patch_apply(changed[k], old[k]),
        ));
    } else {
        assert(apply_sections_changed_except(changed, old, pending.remove(k))
            =~= apply_sections_changed_except(changed, old, pending));
    }
}

impl SectionsPatch {
    pub fn diff(
        old: OrdMap<String, OrdMap<String, String>>,
        new: OrdMap<String, OrdMap<String, String>>,
    ) -> (r: Self)
        ensures
            r@ == sections_patch_diff(sections_view(old@), sections_view(new@)),
    {
        let ghost o0 = sections_view(old@);
        let ghost n0 = sections_view(new@);
        let ghost full = sections_patch_diff(o0, n0);
        let mut old = old;
        let mut new = new;
        let mut changed: OrdMap<String, MapPatch> = OrdMap::new();
        let mut added: OrdMap<String, OrdMap<String, String>> = OrdMap::new();
        proof {
            assert(o0.remove_keys(n0.dom() - new@.dom()) =~= o0);
            assert(full.changed.remove_keys(new@.dom()) =~= Map::empty());
            assert(full.added.remove_keys(new@.dom()) =~= Map::empty());
            assert(map_patches_view(changed@) =~= Map::empty());
            assert(sections_view(added@) =~= Map::empty());
            new.lemma_finite();
        }
        while !new.is_empty()
            invariant
                sections_view(new@).submap_of(n0),
                new@.dom().finite(),
                sections_view(old@) == o0.remove_keys(n0.dom() - new@.dom()),
                map_patches_view(changed@) == full.changed.remove_keys(new@.dom()),
                sections_view(added@) == full.added.remove_keys(new@.dom()),
                full == sections_patch_diff(o0, n0),
            decreases new@.len(),
        {
            let ghost prev_new = new@;
            let ghost prev_old = old@;
            let ghost prev_changed = changed@;
            let ghost prev_added = added@;
            let (key, new_value) = new.pop_last().unwrap();
            proof {
                new.lemma_finite();
                assert(new@.dom() =~= prev_new.dom().remove(key@));
                assert(sections_view(prev_new).contains_key(key@));
                assert(sections_view(prev_new)[key@] == str_map_view(new_value@));
                lemma_submap_at(sections_view(prev_new), n0, key@);
                assert(!(n0.dom() - prev_new.dom()).contains(key@));
                assert(sections_view(prev_old).contains_key(key@) == prev_old.contains_key(key@));
                assert(prev_old.contains_key(key@) == o0.contains_key(key@));
                if o0.contains_key(key@) {
                    assert(sections_view(prev_old)[key@] == o0[key@]);
                }
            }
            let ghost kv = key@;
            match old.remove(&key) {
                Some(old_value) => {
                    let patch = MapPatch::diff(old_value, new_value);
                    if !patch.is_empty() {
                        let ghost pv = patch;
                        changed.insert(key, patch);
                        proof {
                            lemma_map_values_insert(prev_changed, kv, pv, |p: MapPatch| p@);
                        }
                    }
                    proof {
                        lemma_map_values_remove(
                            prev_old,
                            kv,
                            |s: OrdMap<String, String>| str_map_view(s@),
                        );
                    }
                },
                None => {
                    let ghost nv = new_value;
                    added.insert(key, new_value);
                    proof {
                        lemma_map_values_insert(
                            prev_added,
                            kv,
                            nv,
                            |s: OrdMap<String, String>| str_map_view(s@),
                        );
                        assert(old@ =~= prev_old);
                    }
                },
            }
            proof {
                assert(sections_view(old@) =~= o0.remove_keys(n0.dom() - new@.dom()));
                assert(map_patches_view(changed@) =~= full.changed.remove_keys(new@.dom()));
                assert(sections_view(added@) =~= full.added.remove_keys(new@.dom()));
                assert(sections_view(new@) =~= sections_view(prev_new).remove(kv));
            }
        }
        proof {
            assert(full.changed.remove_keys(new@.dom()) =~= full.changed);
            assert(full.added.remove_keys(new@.dom()) =~= full.added);
        }
        SectionsPatch { changed, added }
    }

    pub fn is_empty(&self) -> (r: bool)
        ensures
            r == sections_patch_is_empty(self@),
    {
        let a = self.changed.is_empty();
        let b = self.added.is_empty();
        proof {
            if a {
                assert(self@.changed =~= Map::empty());
            } else {
                assert(!(self.changed@ =~= Map::empty()));
                let k = choose|k: Seq<char>| #[trigger] self.changed@.contains_key(k);
                assert(self@.changed.dom().contains(k));
            }
            if b {
                assert(self@.added =~= Map::empty());
            } else {
                assert(!(self.added@ =~= Map::empty()));
                let k = choose|k: Seq<char>| #[trigger] self.added@.contains_key(k);
                assert(self@.added.dom().contains(k));
            }
        }
        a && b
    }

    pub fn apply_to_old(self, target: &mut OrdMap<String, OrdMap<String, String>>)
        ensures
            sections_view(final(target)@) == sections_patch_apply(
                self@,
                sections_view(old(target)@),
            ),
    {
        let ghost p0 = self@;
        let ghost t0 = sections_view(target@);
        let mut changed = self.changed;
        let mut added = self.added;
        let ghost phase1 = apply_sections_changed_except(p0.changed, t0, Set::empty());
        proof {
            changed.lemma_finite();
            assert(apply_sections_changed_except(p0.changed, t0, changed@.dom()) =~= t0);
        }
        while !changed.is_empty()
            invariant
                p0 == (SectionsPatchView { changed: p0.changed, added: sections_view(added@) }),
                map_patches_view(changed@).submap_of(p0.changed),
                changed@.dom().finite(),
                sections_view(target@) == apply_sections_changed_except(
                    p0.changed,
                    t0,
                    changed@.dom(),
                ),
            decreases changed@.len(),
        {
            let ghost prev = changed@;
            let ghost prev_t = target@;
            let (key, patch) = changed.pop_last().unwrap();
            let ghost kv = key@;
            proof {
                changed.lemma_finite();
                assert(map_patches_view(prev).contains_key(kv));
                lemma_submap_at(map_patches_view(prev), p0.changed, kv);
                assert(sections_view(prev_t).contains_key(kv) == prev_t.contains_key(kv));
                lemma_apply_sections_changed_step(p0.changed, t0, prev.dom(), kv);
                assert(changed@.dom() =~= prev.dom().remove(kv));
            }
            match target.remove(&key) {
                Some(mut value) => {
                    proof {
                        assert(sections_view(prev_t).contains_key(kv));
                        assert(str_map_view(value@) == sections_view(prev_t)[kv]);
                        assert(str_map_view(value@) == t0[kv]);
                    }
                    patch.apply_to_old(&mut value);
                    let ghost vv = value;
                    target.insert(key, value);
                    proof {
                        lemma_map_values_insert(
                            prev_t.remove(kv),
                            kv,
                            vv,
                            |s: OrdMap<String, String>| str_map_view(s@),
                        );
                        lemma_map_values_remove(
                            prev_t,
                            kv,
                            |s: OrdMap<String, String>| str_map_view(s@),
                        );
                        assert(sections_view(target@) == sections_view(prev_t).remove(kv).insert(
                            kv,
                            map_patch_apply(p0.changed[kv], t0[kv]),
                        ));
                    }
                },
                None => {},
            }
            proof {
                assert(map_patches_view(changed@) =~= map_patches_view(prev).remove(kv));
            }
        }
        proof {
            assert(sections_view(target@) =~= phase1);
            assert(sections_view(added@).submap_of(p0.added));
            added.lemma_finite();
        }
        while !added.is_empty()
            invariant
                sections_view(added@).submap_of(p0.added),
                added@.dom().finite(),
                sections_view(target@) == phase1.union_prefer_right(
                    p0.added.remove_keys(added@.dom()),
                ),
            decreases added@.len(),
        {
            let ghost prev = added@;
            let ghost prev_t = target@;
            let (key, value) = added.pop_last().unwrap();
            let ghost kv = key@;
            let ghost vv = value;
            proof {
                added.lemma_finite();
                assert(sections_view(prev).contains_key(kv));
                lemma_submap_at(sections_view(prev), p0.added, kv);
                assert(added@.dom() =~= prev.dom().remove(kv));
                assert(sections_view(added@) =~= sections_view(prev).remove(kv));
            }
            target.insert(key, value);
            proof {
                lemma_map_values_insert(
                    prev_t,
                    kv,
                    vv,
                    |s: OrdMap<String, String>| str_map_view(s@),
                );
                assert(sections_view(target@) =~= phase1.union_prefer_right(
                    p0.added.remove_keys(added@.dom()),
                ));
            }
        }
        proof {
            assert(p0.added.remove_keys(added@.dom()) =~= p0.added);
        }
    }
}

impl CfgPatch {
    /// The changes that make `old` agree with `new` on every property and section of `new`;
    /// what `new` lacks is not removed.
    pub fn diff(old: Cfg, new: Cfg) -> (r: Self)
        ensures
            r@ == cfg_patch_diff(old@, new@),
    {
        CfgPatch {
            root: MapPatch::diff(old.root, new.root),
            sections: SectionsPatch::diff(old.sections, new.sections),
        }
    }

    pub fn is_empty(&self) -> (r: bool)
        ensures
            r == cfg_patch_is_empty(self@),
    {
        self.root.is_empty() && self.sections.is_empty()
    }

    /// Applies the changes to `target`.
    pub fn apply_to_old(self, target: &mut Cfg)
        ensures
            final(target)@ == cfg_patch_apply(self@, old(target)@),
    {
        self.root.apply_to_old(&mut target.root);
        self.sections.apply_to_old(&mut target.sections);
    }
}

} // verus!

verus! {

/// Sections of `old` and `new` together; in a section of both, `new`'s properties win.
pub open spec fn merge_sections(
    old: Map<Seq<char>, StrMap>,
    new: Map<Seq<char>, StrMap>,
) -> Map<Seq<char>, StrMap> {
    Map::new(
        |k: Seq<char>| old.contains_key(k) || new.contains_key(k),
        |k: Seq<char>|
            if old.contains_key(k) && new.contains_key(k) {
                old[k].union_prefer_right(new[k])
            } else if new.contains_key(k) {
                new[k]
            } else {
                old[k]
            },
    )
}

/// `old` updated with everything `new` holds.
pub open spec fn merge_cfg(old: CfgView, new: CfgView) -> CfgView {
    CfgView {
        root: old.root.union_prefer_right(new.root),
        sections: merge_sections(old.sections, new.sections),
    }
}

/// Everything `new` holds, `old` holds too.
pub open spec fn cfg_covers(old: CfgView, new: CfgView) -> bool {
    &&& new.root.submap_of(old.root)
    &&& forall|k: Seq<char>|
        #[trigger] new.sections.contains_key(k) ==> old.sections.contains_key(k)
            && new.sections[k].submap_of(old.sections[k])
}

/// Applying the difference of two key maps to the first gives the first updated with the second.
pub proof fn lemma_map_patch_apply_diff(old: StrMap, new: StrMap)
    ensures
        map_patch_apply(map_patch_diff(old, new), old) == old.union_prefer_right(new),
{
    assert(map_patch_apply(map_patch_diff(old, new), old) =~= old.union_prefer_right(new));
}

/// The difference of two key maps is empty exactly when the first already holds the second.
pub proof fn lemma_map_patch_diff_empty(old: StrMap, new: StrMap)
    ensures
        map_patch_is_empty(map_patch_diff(old, new)) <==> new.submap_of(old),
{
    let p = map_patch_diff(old, new);
    if new.submap_of(old) {
        assert forall|k: Seq<char>| !p.changed.dom().contains(k) by {
            if new.contains_key(k) {
                assert(new.dom().contains(k) && old.dom().contains(k));
            }
        }
        assert forall|k: Seq<char>| !p.added.dom().contains(k) by {
            if new.contains_key(k) {
                assert(new.dom().contains(k) && old.dom().contains(k));
            }
        }
        assert(p.changed.dom() =~= Set::empty());
        assert(p.added.dom() =~= Set::empty());
    }
    if map_patch_is_empty(p) {
        assert forall|k: Seq<char>| #[trigger] new.dom().contains(k) implies old.dom().contains(k)
            && new[k] == old[k] by {
            assert(!p.added.dom().contains(k));
            assert(!p.changed.dom().contains(k));
        }
    }
}

/// Applying the difference of two section maps to the first gives the first updated with the
/// second, section by section.
pub proof fn lemma_sections_patch_apply_diff(old: Map<Seq<char>, StrMap>, new: Map<Seq<char>, StrMap>)
    ensures
        sections_patch_apply(sections_patch_diff(old, new), old) == merge_sections(old, new),
{
    let p = sections_patch_diff(old, new);
    assert forall|k: Seq<char>| old.contains_key(k) && new.contains_key(k) implies #[trigger] merge_sections(
        old,
        new,
    )[k] == sections_patch_apply(p, old)[k] by {
        lemma_map_patch_apply_diff(old[k], new[k]);
        lemma_map_patch_diff_empty(old[k], new[k]);
        if !p.changed.contains_key(k) {
            assert(old[k].union_prefer_right(new[k]) =~= old[k]);
        }
    }
    assert(sections_patch_apply(p, old) =~= merge_sections(old, new));
}

/// Applying the difference of `old` and `new` to `old` gives `old` updated with `new`.
pub proof fn lemma_cfg_apply_diff(old: CfgView, new: CfgView)
    ensures
        cfg_patch_apply(cfg_patch_diff(old, new), old) == merge_cfg(old, new),
{
    lemma_map_patch_apply_diff(old.root, new.root);
    lemma_sections_patch_apply_diff(old.sections, new.sections);
}

/// The difference is empty exactly when `old` already holds everything `new` holds.
pub proof fn lemma_cfg_diff_empty(old: CfgView, new: CfgView)
    ensures
        cfg_patch_is_empty(cfg_patch_diff(old, new)) <==> cfg_covers(old, new),
{
    lemma_map_patch_diff_empty(old.root, new.root);
    let p = sections_patch_diff(old.sections, new.sections);
    if cfg_covers(old, new) {
        assert forall|k: Seq<char>| !p.changed.dom().contains(k) by {
            if new.sections.contains_key(k) {
                lemma_map_patch_diff_empty(old.sections[k], new.sections[k]);
            }
        }
        assert forall|k: Seq<char>| !p.added.dom().contains(k) by {
            if new.sections.contains_key(k) {
            }
        }
        assert(p.changed.dom() =~= Set::empty());
        assert(p.added.dom() =~= Set::empty());
    }
    if cfg_patch_is_empty(cfg_patch_diff(old, new)) {
        assert forall|k: Seq<char>| #[trigger] new.sections.contains_key(k) implies old.sections.contains_key(k)
            && new.sections[k].submap_of(old.sections[k]) by {
            assert(!p.added.dom().contains(k));
            assert(!p.changed.dom().contains(k));
            lemma_map_patch_diff_empty(old.sections[k], new.sections[k]);
        }
    }
}

/// A configuration differs from itself in nothing.
pub proof fn lemma_cfg_diff_self(c: CfgView)
    ensures
        cfg_patch_is_empty(cfg_patch_diff(c, c)),
{
    lemma_cfg_diff_empty(c, c);
}

/// When `new` has every property and section of `old`, applying their difference to `old`
/// gives `new`.
pub proof fn lemma_cfg_apply_diff_replaces(old: CfgView, new: CfgView)
    requires
        old.root.dom().subset_of(new.root.dom()),
        forall|k: Seq<char>| #[trigger] old.sections.contains_key(k) ==> new.sections.contains_key(k)
            && old.sections[k].dom().subset_of(new.sections[k].dom()),
    ensures
        cfg_patch_apply(cfg_patch_diff(old, new), old) == new,
{
    lemma_cfg_apply_diff(old, new);
    assert(old.root.union_prefer_right(new.root) =~= new.root);
    assert forall|k: Seq<char>| #[trigger] merge_sections(old.sections, new.sections).contains_key(k)
        implies merge_sections(old.sections, new.sections)[k] == new.sections[k] by {
        if old.sections.contains_key(k) {
            assert(old.sections[k].union_prefer_right(new.sections[k]) =~= new.sections[k]);
        }
    }
    assert(merge_sections(old.sections, new.sections) =~= new.sections);
}

} // verus!

verus! {

/// A key that can be written on a `key=value` line and read back.
pub open spec fn key_writable(k: Seq<char>) -> bool {
    !has_char(k, '=') && !has_char(k, '\n') && !(k.len() > 0 && k[0] == '[')
}

/// A value that can be written on a `key=value` line and read back.
pub open spec fn value_writable(v: Seq<char>) -> bool {
    !has_char(v, '\n') && !(v.len() > 0 && v.last() == '\r')
}

pub open spec fn props_writable(m: StrMap) -> bool {
    forall|k: Seq<char>| #[trigger] m.contains_key(k) ==> key_writable(k) && value_writable(m[k])
}

/// Every key, value and section name of `c` can be written and read back.
pub open spec fn cfg_writable(c: CfgView) -> bool {
    &&& props_writable(c.root)
    &&& forall|t: Seq<char>|
        #[trigger] c.sections.contains_key(t) ==> !has_char(t, '\n') && props_writable(
            c.sections[t],
        )
}

pub open spec fn line_ok(l: Seq<char>) -> bool {
    !has_char(l, '\n') && !(l.len() > 0 && l.last() == '\r')
}

pub open spec fn join_lines(ls: Seq<Seq<char>>) -> Seq<char>
    decreases ls.len(),
{
    if ls.len() == 0 {
        seq![]
    } else {
        join_lines(ls.drop_last()) + ls.last() + seq!['\n']
    }
}

pub open spec fn prop_line(e: (String, String)) -> Seq<char> {
    e.0@ + seq!['='] + e.1@
}

pub open spec fn prop_lines(s: Seq<(String, String)>) -> Seq<Seq<char>>
    decreases s.len(),
{
    if s.len() == 0 {
        seq![]
    } else {
        prop_lines(s.drop_last()).push(prop_line(s.last()))
    }
}

pub open spec fn header_line(name: Seq<char>) -> Seq<char> {
    seq!['['] + name + seq![']']
}

pub open spec fn section_lines(s: Seq<(String, OrdMap<String, String>)>) -> Seq<Seq<char>>
    decreases s.len(),
{
    if s.len() == 0 {
        seq![]
    } else {
        section_lines(s.drop_last()).push(header_line(s.last().0@)) + prop_lines(s.last().1.seq())
            + seq![Seq::<char>::empty()]
    }
}

pub open spec fn cfg_lines(c: Cfg) -> Seq<Seq<char>> {
    prop_lines(c.root.seq()) + (if c.root.seq().len() > 0 {
        seq![Seq::<char>::empty()]
    } else {
        seq![]
    }) + section_lines(c.sections.seq())
}

proof fn lemma_join_append(a: Seq<Seq<char>>, b: Seq<Seq<char>>)
    ensures
        join_lines(a + b) == join_lines(a) + join_lines(b),
    decreases b.len(),
{
    if b.len() == 0 {
        assert(a + b =~= a);
        assert(join_lines(a) + join_lines(b) =~= join_lines(a));
    } else {
        lemma_join_append(a, b.drop_last());
        assert((a + b).drop_last() =~= a + b.drop_last());
        assert(join_lines(a + b) =~= join_lines(a) + join_lines(b));
    }
}

proof fn lemma_lines_of_join(ls: Seq<Seq<char>>)
    requires
        forall|i: int| 0 <= i < ls.len() ==> line_ok(#[trigger] ls[i]),
    ensures
        lines_of(join_lines(ls)) == ls,
    decreases ls.len(),
{
    if ls.len() > 0 {
        let l0 = ls[0];
        let rest = ls.skip(1);
        lemma_join_append(seq![l0], rest);
        assert(seq![l0] + rest =~= ls);
        assert(seq![l0].drop_last() =~= Seq::<Seq<char>>::empty());
        assert(join_lines(Seq::<Seq<char>>::empty()) =~= Seq::<char>::empty());
        assert(join_lines(seq![l0]) == join_lines(Seq::<Seq<char>>::empty()) + l0 + seq!['\n']);
        assert(join_lines(seq![l0]) =~= l0 + seq!['\n']);
        let s = join_lines(ls);
        assert(s =~= l0 + seq!['\n'] + join_lines(rest));
        assert(line_ok(ls[0]));
        lemma_char_pos(l0, '\n');
        lemma_char_pos(s, '\n');
        assert forall|j: int| 0 <= j < l0.len() implies s[j] != '\n' by {
            assert(s[j] == l0[j]);
        }
        crate::text::lemma_char_pos_is(s, '\n', l0.len() as int);
        assert(s.subrange(0, l0.len() as int) =~= l0);
        assert(s.skip((l0.len() + 1) as int) =~= join_lines(rest));
        lemma_lines_of_join(rest);
        assert(lines_of(s) =~= seq![l0] + rest);
    }
}

proof fn lemma_render_props(s: Seq<(String, String)>)
    ensures
        render_props(s) == join_lines(prop_lines(s)),
        prop_lines(s).len() == s.len(),
        forall|i: int| 0 <= i < s.len() ==> #[trigger] prop_lines(s)[i] == prop_line(s[i]),
    decreases s.len(),
{
    if s.len() > 0 {
        lemma_render_props(s.drop_last());
        assert(prop_lines(s).drop_last() =~= prop_lines(s.drop_last()));
        assert(render_props(s) =~= join_lines(prop_lines(s)));
        assert forall|i: int| 0 <= i < s.len() implies #[trigger] prop_lines(s)[i] == prop_line(s[i]) by {
            if i < s.len() - 1 {
                assert(s.drop_last()[i] == s[i]);
            }
        }
    }
}

proof fn lemma_render_sections(s: Seq<(String, OrdMap<String, String>)>)
    ensures
        render_sections(s) == join_lines(section_lines(s)),
    decreases s.len(),
{
    if s.len() > 0 {
        let p = s.drop_last();
        lemma_render_sections(p);
        lemma_render_props(s.last().1.seq());
        lemma_join_append(section_lines(p).push(header_line(s.last().0@)), prop_lines(s.last().1.seq()));
        lemma_join_append(
            section_lines(p).push(header_line(s.last().0@)) + prop_lines(s.last().1.seq()),
            seq![Seq::<char>::empty()],
        );
        assert(section_lines(p).push(header_line(s.last().0@)).drop_last() =~= section_lines(p));
        assert(seq![Seq::<char>::empty()].drop_last() =~= Seq::<Seq<char>>::empty());
        assert(join_lines(Seq::<Seq<char>>::empty()) =~= Seq::<char>::empty());
        assert(join_lines(seq![Seq::<char>::empty()]) =~= seq!['\n']);
        let hl = section_lines(p).push(header_line(s.last().0@));
        assert(join_lines(hl) == join_lines(section_lines(p)) + header_line(s.last().0@) + seq!['\n']);
        assert(render_sections(s) =~= join_lines(section_lines(s)));
    }
}

/// Reading lines from a given state.
pub open spec fn parse_from(st: Result<ParseState, CfgError>, ls: Seq<Seq<char>>) -> Result<
    ParseState,
    CfgError,
>
    decreases ls.len(),
{
    if ls.len() == 0 {
        st
    } else {
        match parse_from(st, ls.drop_last()) {
            Ok(s) => parse_step(s, ls.last()),
            Err(e) => Err(e),
        }
    }
}

proof fn lemma_parse_lines_from(ls: Seq<Seq<char>>)
    ensures
        parse_lines(ls) == parse_from(Ok(ParseState { cfg: empty_cfg_view(), last: None }), ls),
    decreases ls.len(),
{
    if ls.len() > 0 {
        lemma_parse_lines_from(ls.drop_last());
    }
}

proof fn lemma_parse_from_append(
    st: Result<ParseState, CfgError>,
    a: Seq<Seq<char>>,
    b: Seq<Seq<char>>,
)
    ensures
        parse_from(st, a + b) == parse_from(parse_from(st, a), b),
    decreases b.len(),
{
    if b.len() == 0 {
        assert(a + b =~= a);
    } else {
        lemma_parse_from_append(st, a, b.drop_last());
        assert((a + b).drop_last() =~= a + b.drop_last());
    }
}

/// Inserting entries, in order, into a map.
pub open spec fn insert_all(m: StrMap, s: Seq<(String, String)>) -> StrMap
    decreases s.len(),
{
    if s.len() == 0 {
        m
    } else {
        insert_all(m, s.drop_last()).insert(s.last().0@, s.last().1@)
    }
}

proof fn lemma_insert_all_map_of(s: Seq<(String, String)>)
    ensures
        str_map_view(crate::ordmap::map_of(s)) == insert_all(Map::empty(), s),
    decreases s.len(),
{
    if s.len() > 0 {
        lemma_insert_all_map_of(s.drop_last());
        lemma_map_values_insert(
            crate::ordmap::map_of(s.drop_last()),
            s.last().0@,
            s.last().1,
            |v: String| v@,
        );
    } else {
        assert(str_map_view(crate::ordmap::map_of(s)) =~= Map::empty());
    }
}

/// Reading a property line.
proof fn lemma_parse_prop_line(st: ParseState, e: (String, String))
    requires
        key_writable(e.0@),
        st.last matches Some(t) ==> st.cfg.sections.contains_key(t),
    ensures
        parse_step(st, prop_line(e)) == Ok::<ParseState, CfgError>(
            match st.last {
                Some(t) => ParseState {
                    cfg: CfgView {
                        root: st.cfg.root,
                        sections: st.cfg.sections.insert(
                            t,
                            st.cfg.sections[t].insert(e.0@, e.1@),
                        ),
                    },
                    last: st.last,
                },
                None => ParseState {
                    cfg: CfgView {
                        root: st.cfg.root.insert(e.0@, e.1@),
                        sections: st.cfg.sections,
                    },
                    last: None,
                },
            },
        ),
{
    let k = e.0@;
    let l = prop_line(e);
    lemma_char_pos(k, '=');
    assert(l[k.len() as int] == '=');
    assert forall|j: int| 0 <= j < k.len() implies l[j] != '=' by {
        assert(l[j] == k[j]);
    }
    crate::text::lemma_char_pos_is(l, '=', k.len() as int);
    assert(l.subrange(0, k.len() as int) =~= k);
    assert(l.subrange((k.len() + 1) as int, l.len() as int) =~= e.1@);
    if k.len() > 0 {
        assert(l[0] == k[0]);
    }
}

proof fn lemma_parse_props(root: StrMap, sections: Map<Seq<char>, StrMap>, last: Option<Seq<char>>, s: Seq<(String, String)>)
    requires
        forall|i: int| 0 <= i < s.len() ==> key_writable(#[trigger] s[i].0@),
        last matches Some(t) ==> sections.contains_key(t),
    ensures
        parse_from(Ok(ParseState { cfg: CfgView { root, sections }, last }), prop_lines(s))
            == Ok::<ParseState, CfgError>(
            match last {
                Some(t) => ParseState {
                    cfg: CfgView { root, sections: sections.insert(t, insert_all(sections[t], s)) },
                    last,
                },
                None => ParseState { cfg: CfgView { root: insert_all(root, s), sections }, last },
            },
        ),
    decreases s.len(),
{
    let st0 = Ok::<ParseState, CfgError>(ParseState { cfg: CfgView { root, sections }, last });
    if s.len() == 0 {
        match last {
            Some(t) => {
                assert(sections.insert(t, sections[t]) =~= sections);
            },
            None => {},
        }
    } else {
        let p = s.drop_last();
        lemma_parse_props(root, sections, last, p);
        assert(prop_lines(s).drop_last() =~= prop_lines(p));
        assert(key_writable(s[s.len() - 1].0@));
        match last {
            Some(t) => {
                let mid = ParseState {
                    cfg: CfgView { root, sections: sections.insert(t, insert_all(sections[t], p)) },
                    last,
                };
                lemma_parse_prop_line(mid, s.last());
                assert(mid.cfg.sections.insert(t, mid.cfg.sections[t].insert(s.last().0@, s.last().1@))
                    =~= sections.insert(t, insert_all(sections[t], s)));
            },
            None => {
                let mid = ParseState { cfg: CfgView { root: insert_all(root, p), sections }, last };
                lemma_parse_prop_line(mid, s.last());
            },
        }
    }
}

/// The sections that `s` stands for, as a map.
pub open spec fn sections_fold(s: Seq<(String, OrdMap<String, String>)>) -> Map<Seq<char>, StrMap>
    decreases s.len(),
{
    if s.len() == 0 {
        Map::empty()
    } else {
        sections_fold(s.drop_last()).insert(s.last().0@, insert_all(Map::empty(), s.last().1.seq()))
    }
}

proof fn lemma_sections_fold(s: Seq<(String, OrdMap<String, String>)>)
    ensures
        sections_view(crate::ordmap::map_of(s)) == sections_fold(s),
        forall|k: Seq<char>| #[trigger] sections_fold(s).contains_key(k) ==> crate::ordmap::has_key(s, k),
    decreases s.len(),
{
    if s.len() > 0 {
        let p = s.drop_last();
        lemma_sections_fold(p);
        lemma_insert_all_map_of(s.last().1.seq());
        lemma_map_values_insert(
            crate::ordmap::map_of(p),
            s.last().0@,
            s.last().1,
            |m: OrdMap<String, String>| str_map_view(m@),
        );
        assert forall|k: Seq<char>| #[trigger] sections_fold(s).contains_key(k) implies crate::ordmap::has_key(s, k) by {
            if k == s.last().0@ {
                assert(s[s.len() - 1].0@ == k);
            } else {
                assert(sections_fold(p).contains_key(k));
                let i = choose|i: int| 0 <= i < p.len() && #[trigger] p[i].0@ == k;
                assert(s[i] == p[i]);
            }
        }
    } else {
        assert(sections_view(crate::ordmap::map_of(s)) =~= Map::empty());
    }
}

proof fn lemma_parse_sections(root: StrMap, last: Option<Seq<char>>, s: Seq<(String, OrdMap<String, String>)>)
    requires
        crate::ordmap::sorted_keys(s),
        forall|i: int| 0 <= i < s.len() ==> !has_char(#[trigger] s[i].0@, '\n'),
        forall|i: int, j: int|
            0 <= i < s.len() && 0 <= j < s[i].1.seq().len() ==> key_writable(
                #[trigger] s[i].1.seq()[j].0@,
            ),
        last matches Some(t) ==> false,
    ensures
        parse_from(
            Ok(ParseState { cfg: CfgView { root, sections: Map::empty() }, last }),
            section_lines(s),
        ) == Ok::<ParseState, CfgError>(
            ParseState {
                cfg: CfgView { root, sections: sections_fold(s) },
                last: if s.len() == 0 {
                    last
                } else {
                    Some(s.last().0@)
                },
            },
        ),
    decreases s.len(),
{
    let st0 = Ok::<ParseState, CfgError>(
        ParseState { cfg: CfgView { root, sections: Map::empty() }, last },
    );
    if s.len() > 0 {
        let p = s.drop_last();
        assert(crate::ordmap::sorted_keys(p)) by {
            assert forall|i: int, j: int| 0 <= i < j < p.len() implies crate::text::seq_lt(
                #[trigger] p[i].0@,
                #[trigger] p[j].0@,
            ) by {
                assert(s[i] == p[i] && s[j] == p[j]);
            }
        }
        assert forall|i: int, j: int|
            0 <= i < p.len() && 0 <= j < p[i].1.seq().len() implies key_writable(
            #[trigger] p[i].1.seq()[j].0@,
        ) by {
            assert(s[i] == p[i]);
        }
        lemma_parse_sections(root, last, p);
        let name = s.last().0@;
        let props = s.last().1.seq();
        let sec = sections_fold(p);
        let mid_last = if p.len() == 0 {
            last
        } else {
            Some(p.last().0@)
        };
        let mid = ParseState { cfg: CfgView { root, sections: sec }, last: mid_last };
        lemma_sections_fold(p);
        assert(!sec.contains_key(name)) by {
            if sec.contains_key(name) {
                let i = choose|i: int| 0 <= i < p.len() && #[trigger] p[i].0@ == name;
                assert(s[i] == p[i]);
                crate::ordmap::lemma_sorted_distinct(s, i, s.len() - 1);
            }
        }
        let h = header_line(name);
        assert(h.subrange(1, h.len() - 1) =~= name);
        let after_header = ParseState {
            cfg: CfgView { root, sections: sec.insert(name, Map::empty()) },
            last: Some(name),
        };
        assert(parse_step(mid, h) == Ok::<ParseState, CfgError>(after_header));
        let a = section_lines(p);
        lemma_parse_from_append(st0, a, seq![h]);
        assert((a + seq![h]).drop_last() =~= a);
        assert(a.push(h) =~= a + seq![h]);
        assert(parse_from(st0, a.push(h)) == Ok::<ParseState, CfgError>(after_header));
        assert forall|j: int| 0 <= j < props.len() implies key_writable(#[trigger] props[j].0@) by {
            assert(key_writable(s[s.len() - 1].1.seq()[j].0@));
        }
        lemma_parse_props(root, sec.insert(name, Map::empty()), Some(name), props);
        lemma_parse_from_append(st0, a.push(h), prop_lines(props));
        let after_props = ParseState {
            cfg: CfgView {
                root,
                sections: sec.insert(name, Map::empty()).insert(name, insert_all(Map::empty(), props)),
            },
            last: Some(name),
        };
        assert(sec.insert(name, Map::empty()).insert(name, insert_all(Map::empty(), props))
            =~= sections_fold(s));
        let b = a.push(h) + prop_lines(props);
        assert(parse_from(st0, b) == Ok::<ParseState, CfgError>(after_props));
        lemma_parse_from_append(st0, b, seq![Seq::<char>::empty()]);
        assert(seq![Seq::<char>::empty()].drop_last() =~= Seq::<Seq<char>>::empty());
        let one = seq![Seq::<char>::empty()];
        assert(one.drop_last().len() == 0);
        assert(one.last().len() == 0);
        assert(parse_from(Ok::<ParseState, CfgError>(after_props), one.drop_last())
            == Ok::<ParseState, CfgError>(after_props));
        assert(parse_from(Ok::<ParseState, CfgError>(after_props), one)
            == Ok::<ParseState, CfgError>(after_props));
        assert(section_lines(s) == b + seq![Seq::<char>::empty()]);
    } else {
        assert(Map::<Seq<char>, StrMap>::empty() =~= sections_fold(s));
    }
}

proof fn lemma_prop_line_ok(e: (String, String))
    requires
        key_writable(e.0@),
        value_writable(e.1@),
    ensures
        line_ok(prop_line(e)),
{
    let l = prop_line(e);
    crate::text::lemma_has_char(e.0@, '\n');
    crate::text::lemma_has_char(e.1@, '\n');
    crate::text::lemma_has_char(l, '\n');
    if has_char(l, '\n') {
        let j = choose|j: int| 0 <= j < l.len() && l[j] == '\n';
        if j < e.0@.len() {
            assert(l[j] == e.0@[j]);
        } else if j > e.0@.len() {
            assert(l[j] == e.1@[j - e.0@.len() - 1]);
        }
    }
    if e.1@.len() > 0 {
        assert(l.last() == e.1@.last());
    }
}

proof fn lemma_header_line_ok(name: Seq<char>)
    requires
        !has_char(name, '\n'),
    ensures
        line_ok(header_line(name)),
        header_line(name).len() >= 2,
{
    let l = header_line(name);
    crate::text::lemma_has_char(name, '\n');
    crate::text::lemma_has_char(l, '\n');
    if has_char(l, '\n') {
        let j = choose|j: int| 0 <= j < l.len() && l[j] == '\n';
        if 0 < j < l.len() - 1 {
            assert(l[j] == name[j - 1]);
        }
    }
}

/// Reading back what `render` writes gives the same configuration, when every key, value and
/// section name can be written (`cfg_writable`).
pub proof fn lemma_read_render(c: Cfg)
    requires
        c.root.inv(),
        c.sections.inv(),
        forall|i: int| 0 <= i < c.sections.seq().len() ==> (#[trigger] c.sections.seq()[i]).1.inv(),
        cfg_writable(c@),
    ensures
        parse_cfg(render_cfg(c)) == Ok::<CfgView, CfgError>(c@),
{
    let rs = c.root.seq();
    let ss = c.sections.seq();
    c.root.lemma_inv();
    c.sections.lemma_inv();
    let blank: Seq<Seq<char>> = if rs.len() > 0 {
        seq![Seq::<char>::empty()]
    } else {
        seq![]
    };
    // the text is the lines joined
    lemma_render_props(rs);
    lemma_render_sections(ss);
    lemma_join_append(prop_lines(rs), blank);
    lemma_join_append(prop_lines(rs) + blank, section_lines(ss));
    assert(join_lines(Seq::<Seq<char>>::empty()) =~= Seq::<char>::empty());
    assert(seq![Seq::<char>::empty()].drop_last() =~= Seq::<Seq<char>>::empty());
    assert(join_lines(seq![Seq::<char>::empty()]) =~= seq!['\n']);
    assert(render_cfg(c) =~= join_lines(cfg_lines(c)));
    // every line can be read back as a line
    assert forall|i: int| 0 <= i < rs.len() implies key_writable(#[trigger] rs[i].0@) && value_writable(
        rs[i].1@,
    ) by {
        assert(c.root@.contains_key(rs[i].0@));
        assert(c@.root.contains_key(rs[i].0@));
    }
    assert forall|i: int, j: int|
        0 <= i < ss.len() && 0 <= j < ss[i].1.seq().len() implies key_writable(
        #[trigger] ss[i].1.seq()[j].0@,
    ) && value_writable(ss[i].1.seq()[j].1@) by {
        let m = ss[i].1;
        assert(m.inv());
        m.lemma_inv();
        assert(c.sections@.contains_key(ss[i].0@));
        assert(c@.sections.contains_key(ss[i].0@));
        assert(c@.sections[ss[i].0@] == str_map_view(m@));
        assert(m@.contains_key(m.seq()[j].0@));
        assert(c@.sections[ss[i].0@].contains_key(m.seq()[j].0@));
    }
    assert forall|i: int| 0 <= i < ss.len() implies !has_char(#[trigger] ss[i].0@, '\n') by {
        assert(c.sections@.contains_key(ss[i].0@));
        assert(c@.sections.contains_key(ss[i].0@));
    }
    let ls = cfg_lines(c);
    lemma_section_lines_ok(ss);
    assert forall|i: int| 0 <= i < ls.len() implies line_ok(#[trigger] ls[i]) by {
        let n1 = prop_lines(rs).len();
        if i < n1 {
            lemma_prop_line_ok(rs[i]);
        } else if i < n1 + blank.len() {
        } else {
            assert(ls[i] == section_lines(ss)[i - n1 - blank.len()]);
        }
    }
    lemma_lines_of_join(ls);
    // reading the lines
    lemma_parse_lines_from(ls);
    let init = Ok::<ParseState, CfgError>(ParseState { cfg: empty_cfg_view(), last: None });
    lemma_parse_from_append(init, prop_lines(rs) + blank, section_lines(ss));
    lemma_parse_from_append(init, prop_lines(rs), blank);
    lemma_parse_props(Map::empty(), Map::empty(), None, rs);
    let root_st = ParseState {
        cfg: CfgView { root: insert_all(Map::empty(), rs), sections: Map::empty() },
        last: None,
    };
    assert(parse_from(Ok::<ParseState, CfgError>(root_st), blank) == Ok::<ParseState, CfgError>(root_st)) by {
        if rs.len() > 0 {
            assert(blank.drop_last().len() == 0);
            assert(blank.last().len() == 0);
            assert(parse_from(Ok::<ParseState, CfgError>(root_st), blank.drop_last())
                == Ok::<ParseState, CfgError>(root_st));
        } else {
            assert(blank.len() == 0);
        }
    }
    lemma_parse_sections(insert_all(Map::empty(), rs), None, ss);
    lemma_insert_all_map_of(rs);
    lemma_sections_fold(ss);
}

proof fn lemma_section_lines_ok(s: Seq<(String, OrdMap<String, String>)>)
    requires
        forall|i: int| 0 <= i < s.len() ==> !has_char(#[trigger] s[i].0@, '\n'),
        forall|i: int, j: int|
            0 <= i < s.len() && 0 <= j < s[i].1.seq().len() ==> key_writable(
                #[trigger] s[i].1.seq()[j].0@,
            ) && value_writable(s[i].1.seq()[j].1@),
    ensures
        forall|k: int| 0 <= k < section_lines(s).len() ==> line_ok(#[trigger] section_lines(s)[k]),
    decreases s.len(),
{
    if s.len() > 0 {
        let p = s.drop_last();
        assert forall|i: int, j: int|
            0 <= i < p.len() && 0 <= j < p[i].1.seq().len() implies key_writable(
            #[trigger] p[i].1.seq()[j].0@,
        ) && value_writable(p[i].1.seq()[j].1@) by {
            assert(s[i] == p[i]);
        }
        assert forall|i: int| 0 <= i < p.len() implies !has_char(#[trigger] p[i].0@, '\n') by {
            assert(s[i] == p[i]);
        }
        lemma_section_lines_ok(p);
        let props = s.last().1.seq();
        lemma_render_props(props);
        lemma_header_line_ok(s.last().0@);
        let a = section_lines(p);
        let ls = section_lines(s);
        assert forall|k: int| 0 <= k < ls.len() implies line_ok(#[trigger] ls[k]) by {
            if k < a.len() {
                assert(ls[k] == a[k]);
            } else if k == a.len() {
            } else if k < a.len() + 1 + props.len() {
                let j = k - a.len() - 1;
                assert(ls[k] == prop_lines(props)[j]);
                assert(key_writable(s[s.len() - 1].1.seq()[j].0@));
                lemma_prop_line_ok(props[j]);
            } else {
                assert(ls[k].len() == 0);
            }
        }
    }
}

} // verus!
