use crate::cfg::{cfg_patch_diff, cfg_patch_is_empty, Cfg, CfgPatch, CfgPatchView, CfgView};
use crate::ordmap::{has_key, lemma_map_of_entry, MapKey, OrdMap};
use crate::serde::{Id, IdMap};
use crate::text::{
    char_pos, compare_str, lemma_char_pos, lemma_seq_lt_irreflexive, lemma_seq_lt_total,
    lemma_seq_lt_transitive, seq_lt, KeyOrder,
};
use vstd::prelude::*;

verus! {

/// A panel plugin: its kind and its number.
pub struct PluginId {
    pub kind: String,
    pub id: u64,
}

impl View for PluginId {
    type V = (Seq<char>, u64);

    open spec fn view(&self) -> (Seq<char>, u64) {
        (self.kind@, self.id)
    }
}

impl MapKey for PluginId {
    open spec fn key_lt(a: (Seq<char>, u64), b: (Seq<char>, u64)) -> bool {
        seq_lt(a.0, b.0) || (a.0 == b.0 && a.1 < b.1)
    }

    proof fn lemma_key_lt_irreflexive(a: (Seq<char>, u64)) {
        lemma_seq_lt_irreflexive(a.0);
    }

    proof fn lemma_key_lt_transitive(a: (Seq<char>, u64), b: (Seq<char>, u64), c: (Seq<char>, u64)) {
        if seq_lt(a.0, b.0) && seq_lt(b.0, c.0) {
            lemma_seq_lt_transitive(a.0, b.0, c.0);
        }
    }

    proof fn lemma_key_lt_total(a: (Seq<char>, u64), b: (Seq<char>, u64)) {
        lemma_seq_lt_total(a.0, b.0);
    }

    fn compare_key(&self, other: &Self) -> (r: KeyOrder) {
        proof {
            lemma_seq_lt_irreflexive(self.kind@);
            lemma_seq_lt_irreflexive(other.kind@);
        }
        match compare_str(self.kind.as_str(), other.kind.as_str()) {
            KeyOrder::Less => {
                proof {
                    if seq_lt(other.kind@, self.kind@) {
                        lemma_seq_lt_transitive(self.kind@, other.kind@, self.kind@);
                    }
                }
                KeyOrder::Less
            },
            KeyOrder::Greater => {
                proof {
                    if seq_lt(self.kind@, other.kind@) {
                        lemma_seq_lt_transitive(self.kind@, other.kind@, self.kind@);
                    }
                }
                KeyOrder::Greater
            },
            KeyOrder::Equal => if self.id < other.id {
                KeyOrder::Less
            } else if self.id == other.id {
                KeyOrder::Equal
            } else {
                KeyOrder::Greater
            },
        }
    }

    fn clone_key(&self) -> (r: Self) {
        PluginId { kind: self.kind.clone(), id: self.id }
    }
}

/// The decimal digits of `n`, most significant first.
pub open spec fn decimal(n: nat) -> Seq<char>
    decreases n,
{
    if n < 10 {
        seq![digit_char(n)]
    } else {
        decimal(n / 10) + seq![digit_char(n % 10)]
    }
}

pub open spec fn digit_char(d: nat) -> char {
    if d == 0 {
        '0'
    } else if d == 1 {
        '1'
    } else if d == 2 {
        '2'
    } else if d == 3 {
        '3'
    } else if d == 4 {
        '4'
    } else if d == 5 {
        '5'
    } else if d == 6 {
        '6'
    } else if d == 7 {
        '7'
    } else if d == 8 {
        '8'
    } else {
        '9'
    }
}

fn digit_str(d: u64) -> (r: &'static str)
    requires
        d < 10,
    ensures
        r@ == seq![digit_char(d as nat)],
{
    proof {
        reveal_strlit("0");
        reveal_strlit("1");
        reveal_strlit("2");
        reveal_strlit("3");
        reveal_strlit("4");
        reveal_strlit("5");
        reveal_strlit("6");
        reveal_strlit("7");
        reveal_strlit("8");
        reveal_strlit("9");
    }
    if d == 0 {
        "0"
    } else if d == 1 {
        "1"
    } else if d == 2 {
        "2"
    } else if d == 3 {
        "3"
    } else if d == 4 {
        "4"
    } else if d == 5 {
        "5"
    } else if d == 6 {
        "6"
    } else if d == 7 {
        "7"
    } else if d == 8 {
        "8"
    } else {
        "9"
    }
}

/// The decimal text of `n`.
pub fn decimal_text(n: u64) -> (r: String)
    ensures
        r@ == decimal(n as nat),
    decreases n,
{
    let mut r = if n < 10 {
        String::new()
    } else {
        decimal_text(n / 10)
    };
    r.append(digit_str(n % 10));
    proof {
        if n < 10 {
            assert(r@ =~= seq![digit_char(n as nat)]);
        }
    }
    r
}


pub open spec fn is_digit(c: char) -> bool {
    '0' as int <= c as int && c as int <= '9' as int
}

pub open spec fn digit_value(c: char) -> nat {
    (c as int - '0' as int) as nat
}

/// The number that decimal digits denote.
pub open spec fn digits_value(d: Seq<char>) -> nat
    decreases d.len(),
{
    if d.len() == 0 {
        0
    } else {
        digits_value(d.drop_last()) * 10 + digit_value(d.last())
    }
}

/// The text without one leading `+`.
pub open spec fn sign_stripped(s: Seq<char>) -> Seq<char> {
    if s.len() > 0 && s[0] == '+' {
        s.drop_first()
    } else {
        s
    }
}

pub open spec fn all_digits(d: Seq<char>) -> bool {
    forall|i: int| 0 <= i < d.len() ==> is_digit(#[trigger] d[i])
}

/// An unsigned integer read as `str::parse::<u64>` reads it: an optional `+`, then at least one
/// decimal digit, denoting a number that fits.
pub open spec fn parse_decimal(s: Seq<char>) -> Option<u64> {
    let d = sign_stripped(s);
    if d.len() > 0 && all_digits(d) && digits_value(d) <= u64::MAX {
        Some(digits_value(d) as u64)
    } else {
        None
    }
}

proof fn lemma_digits_value_grows(d: Seq<char>, i: int)
    requires
        0 <= i <= d.len(),
    ensures
        digits_value(d.take(i)) <= digits_value(d),
    decreases d.len() - i,
{
    if i < d.len() {
        lemma_digits_value_grows(d, i + 1);
        assert(d.take(i + 1).drop_last() =~= d.take(i));
        let a = digits_value(d.take(i));
        assert(digits_value(d.take(i + 1)) == a * 10 + digit_value(d.take(i + 1).last()));
        assert(a <= a * 10) by (nonlinear_arith)
            requires
                a >= 0,
        ;
    } else {
        assert(d.take(i) =~= d);
    }
}

proof fn lemma_digit_char(d: nat)
    requires
        d < 10,
    ensures
        is_digit(digit_char(d)),
        digit_value(digit_char(d)) == d,
{
}

/// The decimal digits of `n` are digits, the first one is no sign, and they denote `n`.
pub proof fn lemma_decimal_digits(n: nat)
    ensures
        decimal(n).len() > 0,
        all_digits(decimal(n)),
        is_digit(decimal(n)[0]),
        digits_value(decimal(n)) == n,
    decreases n,
{
    if n < 10 {
        lemma_digit_char(n);
        assert(decimal(n).drop_last() =~= Seq::<char>::empty());
        assert(digits_value(decimal(n)) == digits_value(Seq::<char>::empty()) * 10 + digit_value(
            digit_char(n),
        ));
    } else {
        lemma_decimal_digits(n / 10);
        lemma_digit_char(n % 10);
        let d = decimal(n);
        assert(d.drop_last() =~= decimal(n / 10));
        assert(d.last() == digit_char(n % 10));
        assert(d[0] == decimal(n / 10)[0]);
        assert forall|i: int| 0 <= i < d.len() implies is_digit(#[trigger] d[i]) by {
            if i < d.len() - 1 {
                assert(d[i] == decimal(n / 10)[i]);
            }
        }
        assert((n / 10) * 10 + n % 10 == n) by (nonlinear_arith);
        assert(digits_value(d) == digits_value(decimal(n / 10)) * 10 + digit_value(digit_char(n % 10)));
    }
}

/// The decimal text of a number that fits in a `u64` reads back as that number.
pub proof fn lemma_parse_decimal_text(n: nat)
    requires
        n <= u64::MAX,
    ensures
        parse_decimal(decimal(n)) == Some(n as u64),
{
    lemma_decimal_digits(n);
    assert(sign_stripped(decimal(n)) == decimal(n));
}

/// Reads an unsigned integer as `str::parse::<u64>` does; see `parse_decimal`.
pub fn parse_u64(s: &str) -> (r: Option<u64>)
    ensures
        r == parse_decimal(s@),
{
    let c = crate::text::chars_of(s);
    let from: usize = if c.len() > 0 && c[0] == '+' {
        1
    } else {
        0
    };
    let ghost d = if s@.len() > 0 && s@[0] == '+' {
        s@.drop_first()
    } else {
        s@
    };
    proof {
        assert(d =~= c@.skip(from as int));
    }
    if from >= c.len() {
        return None;
    }
    let mut value: u64 = 0;
    let mut i: usize = from;
    while i < c.len()
        invariant
            from <= i <= c.len(),
            from < c.len(),
            c@ == s@,
            d == c@.skip(from as int),
            d == sign_stripped(s@),
            value == digits_value(d.take(i - from)),
            forall|j: int| 0 <= j < i - from ==> is_digit(#[trigger] d[j]),
        decreases c.len() - i,
    {
        let ch = c[i];
        proof {
            assert(d[i - from] == ch);
        }
        if !('0' <= ch && ch <= '9') {
            proof {
                assert(!is_digit(d[i - from]));
                assert(!(forall|j: int| 0 <= j < d.len() ==> is_digit(#[trigger] d[j])));
                assert(parse_decimal(s@) is None);
            }
            return None;
        }
        let dv: u64 = (ch as u32 - '0' as u32) as u64;
        proof {
            assert(d.take(i - from + 1).drop_last() =~= d.take(i - from));
            assert(d.take(i - from + 1).last() == ch);
            assert(dv == digit_value(ch));
        }
        let next = match value.checked_mul(10) {
            Some(m) => m.checked_add(dv),
            None => None,
        };
        match next {
            Some(v) => {
                value = v;
            },
            None => {
                proof {
                    lemma_digits_value_grows(d, i - from + 1);
                    assert(digits_value(d.take(i - from + 1)) == value * 10 + dv);
                    assert(value * 10 + dv > u64::MAX);
                }
                return None;
            },
        }
        i = i + 1;
    }
    proof {
        assert(d.take(c.len() - from) =~= d);
    }
    Some(value)
}

/// The index of the last `c` in `s`, or -1.
pub open spec fn last_char_pos(s: Seq<char>, c: char) -> int
    decreases s.len(),
{
    if s.len() == 0 {
        -1
    } else if s.last() == c {
        s.len() - 1
    } else {
        last_char_pos(s.drop_last(), c)
    }
}

proof fn lemma_last_char_pos(s: Seq<char>, c: char)
    ensures
        -1 <= last_char_pos(s, c) < s.len(),
        last_char_pos(s, c) >= 0 ==> s[last_char_pos(s, c)] == c,
        forall|j: int| last_char_pos(s, c) < j < s.len() ==> s[j] != c,
    decreases s.len(),
{
    if s.len() > 0 && s.last() != c {
        lemma_last_char_pos(s.drop_last(), c);
        assert forall|j: int| last_char_pos(s, c) < j < s.len() implies s[j] != c by {
            if j < s.len() - 1 {
                assert(s.drop_last()[j] == s[j]);
            }
        }
    }
}

/// The plugin that a file named `stem` (without its extension) is for: the kind before the last
/// `-`, the number after it.
pub open spec fn plugin_of_stem(stem: Seq<char>) -> Option<(Seq<char>, u64)> {
    let p = last_char_pos(stem, '-');
    if p < 0 {
        None
    } else {
        match parse_decimal(stem.skip(p + 1)) {
            Some(n) => Some((stem.take(p), n)),
            None => None,
        }
    }
}

/// The plugin that a file named `stem` (without its extension) is for; see `plugin_of_stem`.
pub fn plugin_id_of_stem(stem: &str) -> (r: Option<PluginId>)
    ensures
        match r {
            Some(id) => plugin_of_stem(stem@) == Some(id@),
            None => plugin_of_stem(stem@) is None,
        },
{
    let c = crate::text::chars_of(stem);
    let n = c.len();
    let mut i: usize = n;
    while i > 0 && c[i - 1] != '-'
        invariant
            i <= n,
            n == c.len(),
            forall|j: int| i <= j < n ==> c@[j] != '-',
        decreases i,
    {
        i = i - 1;
    }
    proof {
        lemma_last_char_pos(stem@, '-');
        let p = last_char_pos(stem@, '-');
        if i > 0 {
            assert(c@[i - 1] == '-');
            assert(!(p < i - 1));
            assert(p == i - 1);
        } else {
            assert(p < 0);
        }
    }
    if i == 0 {
        return None;
    }
    let kind = crate::text::slice_string(stem, 0, i - 1);
    let id_text = crate::text::slice_string(stem, i, n);
    proof {
        assert(id_text@ =~= stem@.skip(i as int));
        assert(kind@ =~= stem@.take(i - 1));
    }
    match parse_u64(id_text.as_str()) {
        Some(id) => Some(PluginId { kind, id }),
        None => None,
    }
}

/// The extension of a file name as `Path::extension` gives it: what follows the last `.`, unless
/// there is none or the only one starts the name.
pub open spec fn extension_of(name: Seq<char>) -> Option<Seq<char>> {
    let p = last_char_pos(name, '.');
    if p <= 0 {
        None
    } else {
        Some(name.skip(p + 1))
    }
}

/// The stem of a file name as `Path::file_stem` gives it: what precedes the last `.`, or the
/// whole name if there is no `.` or the only one starts the name.
pub open spec fn stem_of(name: Seq<char>) -> Seq<char> {
    let p = last_char_pos(name, '.');
    if p <= 0 {
        name
    } else {
        name.take(p)
    }
}

/// The stem and extension of a file name; see `stem_of` and `extension_of`.
pub fn split_extension(name: &str) -> (r: (String, Option<String>))
    ensures
        r.0@ == stem_of(name@),
        match r.1 {
            Some(e) => extension_of(name@) == Some(e@),
            None => extension_of(name@) is None,
        },
{
    let c = crate::text::chars_of(name);
    let n = c.len();
    let mut i: usize = n;
    while i > 0 && c[i - 1] != '.'
        invariant
            i <= n,
            n == c.len(),
            forall|j: int| i <= j < n ==> c@[j] != '.',
        decreases i,
    {
        i = i - 1;
    }
    proof {
        lemma_last_char_pos(name@, '.');
        let p = last_char_pos(name@, '.');
        if i > 0 {
            assert(c@[i - 1] == '.');
            assert(!(p < i - 1));
            assert(p == i - 1);
        } else {
            assert(p < 0);
        }
    }
    if i <= 1 {
        return (String::from_str(name), None);
    }
    let stem = crate::text::slice_string(name, 0, i - 1);
    let ext = crate::text::slice_string(name, i, n);
    proof {
        assert(stem@ =~= name@.take(i - 1));
        assert(ext@ =~= name@.skip(i as int));
    }
    (stem, Some(ext))
}

/// What a file of the panel's directory holds for a plugin.
pub enum PluginFileKind {
    Rc,
    DesktopDir,
}

/// The plugin and kind of a file of the panel's directory, if it is one: its stem must name a
/// plugin, and it must be a directory or have the extension `rc`.
pub open spec fn plugin_entry_of(name: Seq<char>, is_dir: bool) -> Option<((Seq<char>, u64), PluginFileKind)> {
    match plugin_of_stem(stem_of(name)) {
        None => None,
        Some(id) => if is_dir {
            Some((id, PluginFileKind::DesktopDir))
        } else if extension_of(name) == Some(seq!['r', 'c']) {
            Some((id, PluginFileKind::Rc))
        } else {
            None
        },
    }
}

/// The plugin and kind of a file of the panel's directory; see `plugin_entry_of`.
pub fn plugin_entry(name: &str, is_dir: bool) -> (r: Option<(PluginId, PluginFileKind)>)
    ensures
        match r {
            Some((id, kind)) => plugin_entry_of(name@, is_dir) == Some((id@, kind)),
            None => plugin_entry_of(name@, is_dir) is None,
        },
{
    let (stem, ext) = split_extension(name);
    let id = match plugin_id_of_stem(stem.as_str()) {
        Some(id) => id,
        None => return None,
    };
    if is_dir {
        return Some((id, PluginFileKind::DesktopDir));
    }
    proof {
        reveal_strlit("rc");
        assert("rc"@ =~= seq!['r', 'c']);
    }
    match ext {
        Some(e) => if crate::text::str_eq(e.as_str(), "rc") {
            Some((id, PluginFileKind::Rc))
        } else {
            None
        },
        None => None,
    }
}

/// The number of a desktop file of a plugin's directory, if it is one: the name is a number, a
/// `.`, and `desktop`.
pub open spec fn desktop_entry_of(name: Seq<char>) -> Option<u64> {
    let p = char_pos(name, '.');
    if p >= name.len() {
        None
    } else if name.skip(p + 1) != seq!['d', 'e', 's', 'k', 't', 'o', 'p'] {
        None
    } else {
        parse_decimal(name.take(p))
    }
}

/// The number of a desktop file of a plugin's directory; see `desktop_entry_of`.
pub fn desktop_entry(name: &str) -> (r: Option<u64>)
    ensures
        r == desktop_entry_of(name@),
{
    let c = crate::text::chars_of(name);
    let n = c.len();
    let p = crate::text::find_char(&c, '.', 0, n);
    proof {
        assert(c@.subrange(0, n as int) =~= name@);
    }
    if p >= n {
        return None;
    }
    let ext = crate::text::slice_string(name, p + 1, n);
    let id_text = crate::text::slice_string(name, 0, p);
    proof {
        reveal_strlit("desktop");
        assert("desktop"@ =~= seq!['d', 'e', 's', 'k', 't', 'o', 'p']);
        assert(ext@ =~= name@.skip(p + 1));
        assert(id_text@ =~= name@.take(p as int));
    }
    if !crate::text::str_eq(ext.as_str(), "desktop") {
        return None;
    }
    parse_u64(id_text.as_str())
}


/// A symbolic link of a plugin's desktop directory: its target.
pub struct Link {
    pub path: String,
}

/// What a desktop file of a plugin holds: a configuration, or a link to one.
pub enum DesktopFileContent {
    Cfg(Cfg),
    Link(Link),
}

/// A desktop file of a plugin, by number.
pub struct DesktopFile {
    pub id: u64,
    pub content: DesktopFileContent,
}

impl Id for DesktopFile {
    type Id = u64;

    open spec fn spec_id(&self) -> u64 {
        self.id
    }

    fn id(&self) -> (r: &u64) {
        &self.id
    }
}

/// The desktop directory of a plugin.
pub struct DesktopDir {
    pub files: IdMap<DesktopFile>,
}

/// What a plugin's configuration is kept in.
pub enum PluginConfigFile {
    Rc(Cfg),
    DesktopDir(DesktopDir),
}

/// The configuration of a panel plugin.
pub struct PluginConfig {
    pub id: PluginId,
    pub file: PluginConfigFile,
}

impl Id for PluginConfig {
    type Id = PluginId;

    open spec fn spec_id(&self) -> (Seq<char>, u64) {
        self.id@
    }

    fn id(&self) -> (r: &PluginId) {
        &self.id
    }
}

/// The configurations of the panel's plugins.
pub struct PluginConfigs(pub IdMap<PluginConfig>);

/// A change that a diff of two values makes.
pub trait Patch: Sized {
    type Data;

    /// `self` is the change that `diff` makes of `old` and `new`.
    spec fn made_of(&self, old: Self::Data, new: Self::Data) -> bool;

    /// The change changes nothing.
    spec fn spec_is_empty(&self) -> bool;

    /// The change that `diff` makes of `old` and `new` changes nothing.
    spec fn diff_is_empty(old: Self::Data, new: Self::Data) -> bool;

    fn diff(old: Self::Data, new: Self::Data) -> (r: Self)
        ensures
            r.made_of(old, new),
            r.spec_is_empty() == Self::diff_is_empty(old, new),
    ;

    fn is_empty(&self) -> (r: bool)
        ensures
            r == self.spec_is_empty(),
    ;
}

/// The change of a map: patches of kept entries that change, added entries, and removed keys.
pub struct MapPatch<K: MapKey, V: Patch> {
    pub changed: OrdMap<K, V>,
    pub added: OrdMap<K, V::Data>,
    pub removed: OrdMap<K, ()>,
}

/// `p` is the change that `MapPatch::diff` makes of `old` and `new`.
pub open spec fn map_made_of<K: MapKey, V: Patch>(
    p: MapPatch<K, V>,
    old: Map<K::V, V::Data>,
    new: Map<K::V, V::Data>,
) -> bool {
    &&& forall|k: K::V|
        #[trigger] p.changed@.contains_key(k) == (old.contains_key(k) && new.contains_key(k)
            && !V::diff_is_empty(old[k], new[k]))
    &&& forall|k: K::V| #[trigger] p.changed@.contains_key(k) ==> p.changed@[k].made_of(old[k], new[k])
    &&& p.added@ == new.remove_keys(old.dom())
    &&& forall|k: K::V| #[trigger] p.removed@.contains_key(k) == (old.contains_key(k) && !new.contains_key(k))
}

/// The change `MapPatch::diff` makes of `old` and `new` has no changed and no added entries;
/// removed keys do not count.
pub open spec fn map_diff_is_empty<K: MapKey, V: Patch>(
    old: Map<K::V, V::Data>,
    new: Map<K::V, V::Data>,
) -> bool {
    &&& forall|k: K::V|
        #[trigger] new.contains_key(k) ==> old.contains_key(k) && V::diff_is_empty(old[k], new[k])
}

impl<K: MapKey, V: Patch> MapPatch<K, V> {
    pub open spec fn spec_is_empty(&self) -> bool {
        self.changed@ == Map::<K::V, V>::empty() && self.added@ == Map::<K::V, V::Data>::empty()
    }

    /// The change from `old` to `new`: kept entries are diffed, new ones added, and keys that
    /// `new` lacks removed.
    #[verifier::spinoff_prover]
    pub fn diff(old: OrdMap<K, V::Data>, new: OrdMap<K, V::Data>) -> (r: Self)
        ensures
            map_made_of(r, old@, new@),
            r.spec_is_empty() == map_diff_is_empty::<K, V>(old@, new@),
    {
        let ghost o0 = old@;
        let ghost n0 = new@;
        let mut remaining = old;
        let mut pending = new;
        let mut changed: OrdMap<K, V> = OrdMap::new();
        let mut added: OrdMap<K, V::Data> = OrdMap::new();
        proof {
            pending.lemma_finite();
            assert(added@ =~= n0.remove_keys(o0.dom()).remove_keys(pending@.dom()));
        }
        while !pending.is_empty()
            invariant
                pending@.submap_of(n0),
                pending@.dom().finite(),
                remaining@ == o0.remove_keys(n0.dom() - pending@.dom()),
                forall|k: K::V|
                    #[trigger] changed@.contains_key(k) == ((n0.dom() - pending@.dom()).contains(k)
                        && o0.contains_key(k) && !V::diff_is_empty(o0[k], n0[k])),
                forall|k: K::V| #[trigger] changed@.contains_key(k) ==> changed@[k].made_of(o0[k], n0[k]),
                added@ == n0.remove_keys(o0.dom()).remove_keys(pending@.dom()),
            decreases pending@.len(),
        {
            let ghost prev_pending = pending@;
            let ghost prev_remaining = remaining@;
            let (key, new_value) = pending.pop_last().unwrap();
            let ghost kv = key@;
            proof {
                pending.lemma_finite();
                assert(prev_pending.contains_key(kv) && prev_pending[kv] == new_value);
                crate::maps::lemma_submap_at(prev_pending, n0, kv);
                assert(pending@ =~= prev_pending.remove(kv));
                assert(!(n0.dom() - prev_pending.dom()).contains(kv));
                assert(prev_remaining.contains_key(kv) == o0.contains_key(kv));
            }
            match remaining.remove(&key) {
                Some(old_value) => {
                    proof {
                        assert(old_value == o0[kv]);
                    }
                    let patch = V::diff(old_value, new_value);
                    if !patch.is_empty() {
                        changed.insert(key, patch);
                    }
                },
                None => {
                    added.insert(key, new_value);
                },
            }
            proof {
                assert(remaining@ =~= o0.remove_keys(n0.dom() - pending@.dom()));
                assert(added@ =~= n0.remove_keys(o0.dom()).remove_keys(pending@.dom()));
            }
        }
        proof {
            assert(pending@ =~= Map::<K::V, V::Data>::empty());
            assert(added@ =~= n0.remove_keys(o0.dom()));
            assert(remaining@ =~= o0.remove_keys(n0.dom()));
            remaining.lemma_finite();
        }
        let mut removed: OrdMap<K, ()> = OrdMap::new();
        let ghost rem0 = remaining@;
        while !remaining.is_empty()
            invariant
                remaining@.submap_of(rem0),
                remaining@.dom().finite(),
                rem0 == o0.remove_keys(n0.dom()),
                forall|k: K::V|
                    #[trigger] removed@.contains_key(k) == (rem0.contains_key(k) && !remaining@.contains_key(k)),
            decreases remaining@.len(),
        {
            let ghost prev = remaining@;
            let (key, _) = remaining.pop_last().unwrap();
            proof {
                remaining.lemma_finite();
                assert(remaining@ =~= prev.remove(key@));
                crate::maps::lemma_submap_at(prev, rem0, key@);
            }
            removed.insert(key, ());
        }
        let r = MapPatch { changed, added, removed };
        proof {
            if r.spec_is_empty() {
                assert forall|k: K::V| #[trigger] n0.contains_key(k) implies o0.contains_key(k)
                    && V::diff_is_empty(o0[k], n0[k]) by {
                    if !o0.contains_key(k) {
                        assert(added@.contains_key(k));
                    } else {
                        assert(!changed@.contains_key(k));
                    }
                }
            }
            if map_diff_is_empty::<K, V>(o0, n0) {
                assert(changed@ =~= Map::<K::V, V>::empty());
                assert(added@ =~= Map::<K::V, V::Data>::empty());
            }
        }
        r
    }

    /// Whether the change has no changed and no added entries; removed keys do not count.
    pub fn is_empty(&self) -> (r: bool)
        ensures
            r == self.spec_is_empty(),
    {
        self.changed.is_empty() && self.added.is_empty()
    }
}


/// Whether `std::path::Path` holds two paths equal (it compares them component by component).
pub uninterp spec fn same_path(a: Seq<char>, b: Seq<char>) -> bool;

/// `Path == Path` on paths given as text; the result is named by `same_path`.
#[verifier::external_body]
fn paths_equal(a: &str, b: &str) -> (r: bool)
    ensures
        r == same_path(a@, b@),
{
    std::path::Path::new(a) == std::path::Path::new(b)
}

/// Whether two link targets are the same path: equal texts are, and other texts as `Path`
/// compares them.
pub open spec fn link_same(a: Seq<char>, b: Seq<char>) -> bool {
    a == b || same_path(a, b)
}

/// The change of a desktop file's configuration.
pub struct DesktopFileCfgPatch {
    pub id: u64,
    pub cfg: CfgPatch,
}

impl Patch for DesktopFileCfgPatch {
    type Data = (u64, Cfg);

    open spec fn made_of(&self, old: (u64, Cfg), new: (u64, Cfg)) -> bool {
        self.id == new.0 && self.cfg@ == cfg_patch_diff(old.1@, new.1@)
    }

    open spec fn spec_is_empty(&self) -> bool {
        cfg_patch_is_empty(self.cfg@)
    }

    open spec fn diff_is_empty(old: (u64, Cfg), new: (u64, Cfg)) -> bool {
        cfg_patch_is_empty(cfg_patch_diff(old.1@, new.1@))
    }

    fn diff(old: (u64, Cfg), new: (u64, Cfg)) -> (r: Self) {
        DesktopFileCfgPatch { id: new.0, cfg: CfgPatch::diff(old.1, new.1) }
    }

    fn is_empty(&self) -> (r: bool) {
        self.cfg.is_empty()
    }
}

/// The change of a desktop link: its new target, if it differs.
pub struct LinkPatch {
    pub id: u64,
    pub path: Option<String>,
}

impl Patch for LinkPatch {
    type Data = (u64, Link);

    open spec fn made_of(&self, old: (u64, Link), new: (u64, Link)) -> bool {
        &&& self.id == new.0
        &&& if link_same(old.1.path@, new.1.path@) {
            self.path is None
        } else {
            self.path matches Some(p) && p == new.1.path
        }
    }

    open spec fn spec_is_empty(&self) -> bool {
        self.path is None
    }

    open spec fn diff_is_empty(old: (u64, Link), new: (u64, Link)) -> bool {
        link_same(old.1.path@, new.1.path@)
    }

    fn diff(old: (u64, Link), new: (u64, Link)) -> (r: Self) {
        let same = crate::text::str_eq(old.1.path.as_str(), new.1.path.as_str()) || paths_equal(
            old.1.path.as_str(),
            new.1.path.as_str(),
        );
        LinkPatch {
            id: new.0,
            path: if same {
                None
            } else {
                Some(new.1.path)
            },
        }
    }

    fn is_empty(&self) -> (r: bool) {
        self.path.is_none()
    }
}

/// The change of a desktop file: of its configuration, of its link, or a replacement.
pub enum DesktopFilePatch {
    Cfg(DesktopFileCfgPatch),
    Link(LinkPatch),
    Changed(DesktopFile),
}

impl Patch for DesktopFilePatch {
    type Data = DesktopFile;

    open spec fn made_of(&self, old: DesktopFile, new: DesktopFile) -> bool {
        match (old.content, new.content) {
            (DesktopFileContent::Cfg(a), DesktopFileContent::Cfg(b)) => self matches DesktopFilePatch::Cfg(
                p,
            ) && p.made_of((old.id, a), (new.id, b)),
            (DesktopFileContent::Link(a), DesktopFileContent::Link(b)) => self matches DesktopFilePatch::Link(
                p,
            ) && p.made_of((old.id, a), (new.id, b)),
            _ => *self == DesktopFilePatch::Changed(new),
        }
    }

    open spec fn spec_is_empty(&self) -> bool {
        match self {
            DesktopFilePatch::Cfg(p) => p.spec_is_empty(),
            DesktopFilePatch::Link(p) => p.spec_is_empty(),
            DesktopFilePatch::Changed(_) => false,
        }
    }

    open spec fn diff_is_empty(old: DesktopFile, new: DesktopFile) -> bool {
        match (old.content, new.content) {
            (DesktopFileContent::Cfg(a), DesktopFileContent::Cfg(b)) => DesktopFileCfgPatch::diff_is_empty(
                (old.id, a),
                (new.id, b),
            ),
            (DesktopFileContent::Link(a), DesktopFileContent::Link(b)) => LinkPatch::diff_is_empty(
                (old.id, a),
                (new.id, b),
            ),
            _ => false,
        }
    }

    fn diff(old: DesktopFile, new: DesktopFile) -> (r: Self) {
        let ghost g_new = new;
        let DesktopFile { id: old_id, content: old_content } = old;
        let DesktopFile { id: new_id, content: new_content } = new;
        match (old_content, new_content) {
            (DesktopFileContent::Cfg(a), DesktopFileContent::Cfg(b)) => DesktopFilePatch::Cfg(
                DesktopFileCfgPatch::diff((old_id, a), (new_id, b)),
            ),
            (DesktopFileContent::Link(a), DesktopFileContent::Link(b)) => DesktopFilePatch::Link(
                LinkPatch::diff((old_id, a), (new_id, b)),
            ),
            (_, content) => {
                proof {
                    assert(g_new == DesktopFile { id: new_id, content });
                }
                DesktopFilePatch::Changed(DesktopFile { id: new_id, content })
            },
        }
    }

    fn is_empty(&self) -> (r: bool) {
        match self {
            DesktopFilePatch::Cfg(p) => p.is_empty(),
            DesktopFilePatch::Link(p) => p.is_empty(),
            DesktopFilePatch::Changed(_) => false,
        }
    }
}

/// The change of a plugin's RC file.
pub struct RcPatch {
    pub id: PluginId,
    pub cfg: CfgPatch,
}

impl Patch for RcPatch {
    type Data = (PluginId, Cfg);

    open spec fn made_of(&self, old: (PluginId, Cfg), new: (PluginId, Cfg)) -> bool {
        self.id == new.0 && self.cfg@ == cfg_patch_diff(old.1@, new.1@)
    }

    open spec fn spec_is_empty(&self) -> bool {
        cfg_patch_is_empty(self.cfg@)
    }

    open spec fn diff_is_empty(old: (PluginId, Cfg), new: (PluginId, Cfg)) -> bool {
        cfg_patch_is_empty(cfg_patch_diff(old.1@, new.1@))
    }

    fn diff(old: (PluginId, Cfg), new: (PluginId, Cfg)) -> (r: Self) {
        RcPatch { id: new.0, cfg: CfgPatch::diff(old.1, new.1) }
    }

    fn is_empty(&self) -> (r: bool) {
        self.cfg.is_empty()
    }
}

/// The change of a plugin's desktop directory.
pub struct DesktopDirPatch {
    pub id: PluginId,
    pub files: MapPatch<u64, DesktopFilePatch>,
}

impl Patch for DesktopDirPatch {
    type Data = (PluginId, DesktopDir);

    open spec fn made_of(&self, old: (PluginId, DesktopDir), new: (PluginId, DesktopDir)) -> bool {
        self.id == new.0 && map_made_of(self.files, old.1.files.0@, new.1.files.0@)
    }

    open spec fn spec_is_empty(&self) -> bool {
        self.files.spec_is_empty()
    }

    open spec fn diff_is_empty(old: (PluginId, DesktopDir), new: (PluginId, DesktopDir)) -> bool {
        map_diff_is_empty::<u64, DesktopFilePatch>(old.1.files.0@, new.1.files.0@)
    }

    fn diff(old: (PluginId, DesktopDir), new: (PluginId, DesktopDir)) -> (r: Self) {
        DesktopDirPatch { id: new.0, files: MapPatch::diff(old.1.files.0, new.1.files.0) }
    }

    fn is_empty(&self) -> (r: bool) {
        self.files.is_empty()
    }
}

/// The change of a plugin's configuration: of its RC file, of its desktop directory, or a
/// replacement.
pub enum PluginConfigPatch {
    Rc(RcPatch),
    DesktopDir(DesktopDirPatch),
    Changed(PluginConfig),
}

impl Patch for PluginConfigPatch {
    type Data = PluginConfig;

    open spec fn made_of(&self, old: PluginConfig, new: PluginConfig) -> bool {
        match (old.file, new.file) {
            (PluginConfigFile::Rc(a), PluginConfigFile::Rc(b)) => self matches PluginConfigPatch::Rc(p)
                && p.made_of((old.id, a), (new.id, b)),
            (PluginConfigFile::DesktopDir(a), PluginConfigFile::DesktopDir(b)) => self matches PluginConfigPatch::DesktopDir(
                p,
            ) && p.made_of((old.id, a), (new.id, b)),
            _ => *self == PluginConfigPatch::Changed(new),
        }
    }

    open spec fn spec_is_empty(&self) -> bool {
        match self {
            PluginConfigPatch::Rc(p) => p.spec_is_empty(),
            PluginConfigPatch::DesktopDir(p) => p.spec_is_empty(),
            PluginConfigPatch::Changed(_) => false,
        }
    }

    open spec fn diff_is_empty(old: PluginConfig, new: PluginConfig) -> bool {
        match (old.file, new.file) {
            (PluginConfigFile::Rc(a), PluginConfigFile::Rc(b)) => RcPatch::diff_is_empty(
                (old.id, a),
                (new.id, b),
            ),
            (PluginConfigFile::DesktopDir(a), PluginConfigFile::DesktopDir(b)) => DesktopDirPatch::diff_is_empty(
                (old.id, a),
                (new.id, b),
            ),
            _ => false,
        }
    }

    fn diff(old: PluginConfig, new: PluginConfig) -> (r: Self) {
        let ghost g_new = new;
        let PluginConfig { id: old_id, file: old_file } = old;
        let PluginConfig { id: new_id, file: new_file } = new;
        match (old_file, new_file) {
            (PluginConfigFile::Rc(a), PluginConfigFile::Rc(b)) => PluginConfigPatch::Rc(
                RcPatch::diff((old_id, a), (new_id, b)),
            ),
            (PluginConfigFile::DesktopDir(a), PluginConfigFile::DesktopDir(b)) => PluginConfigPatch::DesktopDir(
                DesktopDirPatch::diff((old_id, a), (new_id, b)),
            ),
            (_, file) => {
                proof {
                    assert(g_new == PluginConfig { id: new_id, file });
                }
                PluginConfigPatch::Changed(PluginConfig { id: new_id, file })
            },
        }
    }

    fn is_empty(&self) -> (r: bool) {
        match self {
            PluginConfigPatch::Rc(p) => p.is_empty(),
            PluginConfigPatch::DesktopDir(p) => p.is_empty(),
            PluginConfigPatch::Changed(_) => false,
        }
    }
}

/// The change of the panel plugins' configurations.
pub struct PluginConfigsPatch(pub MapPatch<PluginId, PluginConfigPatch>);

impl PluginConfigsPatch {
    /// The change from `old` to `new`: kept plugins are diffed, new ones added, and plugins that
    /// `new` lacks removed.
    pub fn diff(old: PluginConfigs, new: PluginConfigs) -> (r: Self)
        ensures
            map_made_of(r.0, old.0.0@, new.0.0@),
            r.0.spec_is_empty() == map_diff_is_empty::<PluginId, PluginConfigPatch>(
                old.0.0@,
                new.0.0@,
            ),
    {
        PluginConfigsPatch(MapPatch::diff(old.0.0, new.0.0))
    }

    /// Whether nothing changes or is added; removed plugins do not count.
    pub fn is_empty(&self) -> (r: bool)
        ensures
            r == self.0.spec_is_empty(),
    {
        self.0.is_empty()
    }
}


/// Diffing plugin configurations against themselves changes nothing: every plugin's change is
/// empty, so `PluginConfigsPatch::diff` gives an empty change.
pub proof fn lemma_plugin_configs_diff_self(m: Map<(Seq<char>, u64), PluginConfig>)
    ensures
        map_diff_is_empty::<PluginId, PluginConfigPatch>(m, m),
{
    assert forall|k: (Seq<char>, u64)| #[trigger] m.contains_key(k) implies m.contains_key(k)
        && PluginConfigPatch::diff_is_empty(m[k], m[k]) by {
        match m[k].file {
            PluginConfigFile::Rc(c) => {
                crate::cfg::lemma_cfg_diff_self(c@);
            },
            PluginConfigFile::DesktopDir(d) => {
                let files = d.files.0@;
                assert forall|j: u64| #[trigger] files.contains_key(j) implies files.contains_key(j)
                    && DesktopFilePatch::diff_is_empty(files[j], files[j]) by {
                    match files[j].content {
                        DesktopFileContent::Cfg(c) => {
                            crate::cfg::lemma_cfg_diff_self(c@);
                        },
                        DesktopFileContent::Link(_) => {},
                    }
                }
            },
        }
    }
}

/// A map change made of a map and itself is empty where each entry's change with itself is.
pub proof fn lemma_map_made_of_self<K: MapKey, V: Patch>(p: MapPatch<K, V>, m: Map<K::V, V::Data>)
    requires
        map_made_of(p, m, m),
        map_diff_is_empty::<K, V>(m, m),
    ensures
        p.spec_is_empty(),
{
    assert(p.changed@ =~= Map::<K::V, V>::empty());
    assert(p.added@ =~= Map::<K::V, V::Data>::empty());
}

/// The name a plugin's files start with: its kind, `-`, and its number.
pub open spec fn plugin_base(id: (Seq<char>, u64)) -> Seq<char> {
    id.0 + seq!['-'] + decimal(id.1 as nat)
}

/// The name of a plugin's RC file in the panel's directory.
pub open spec fn rc_name(id: (Seq<char>, u64)) -> Seq<char> {
    plugin_base(id) + seq!['.', 'r', 'c']
}

/// The path of a plugin's desktop file, relative to the panel's directory.
pub open spec fn desktop_file_name(id: (Seq<char>, u64), file: u64) -> Seq<char> {
    plugin_base(id) + seq!['/'] + decimal(file as nat) + seq!['.', 'd', 'e', 's', 'k', 't', 'o', 'p']
}

impl PluginId {
    /// The name the plugin's files start with; see `plugin_base`.
    pub fn base_name(&self) -> (r: String)
        ensures
            r@ == plugin_base(self@),
    {
        proof {
            reveal_strlit("-");
        }
        let mut r = self.kind.clone();
        r.append("-");
        let n = decimal_text(self.id);
        r.append(n.as_str());
        r
    }

    /// The name of the plugin's RC file; see `rc_name`.
    pub fn rc_file_name(&self) -> (r: String)
        ensures
            r@ == rc_name(self@),
    {
        proof {
            reveal_strlit(".rc");
        }
        let mut r = self.base_name();
        r.append(".rc");
        r
    }

    /// The path of one of the plugin's desktop files; see `desktop_file_name`.
    pub fn desktop_file_name(&self, file: u64) -> (r: String)
        ensures
            r@ == desktop_file_name(self@, file),
    {
        proof {
            reveal_strlit("/");
            reveal_strlit(".desktop");
        }
        let mut r = self.base_name();
        r.append("/");
        let n = decimal_text(file);
        r.append(n.as_str());
        r.append(".desktop");
        r
    }
}

/// A step of applying a change of the panel's plugins; paths are relative to the panel's
/// directory.
pub enum PanelStep {
    RemovePlugin { plugin: PluginId },
    WriteCfg { path: String, cfg: Cfg },
    UpdateCfg { path: String, patch: CfgPatch },
    CreateDesktopDir { path: String },
    LinkDesktopFile { path: String, target: String },
    RemoveDesktopFile { path: String },
}

/// What a step denotes.
pub enum PanelStepV {
    RemovePlugin((Seq<char>, u64)),
    WriteCfg(Seq<char>, CfgView),
    UpdateCfg(Seq<char>, CfgPatchView),
    CreateDesktopDir(Seq<char>),
    LinkDesktopFile(Seq<char>, Seq<char>),
    RemoveDesktopFile(Seq<char>),
}

pub open spec fn panel_step_view(s: PanelStep) -> PanelStepV {
    match s {
        PanelStep::RemovePlugin { plugin } => PanelStepV::RemovePlugin(plugin@),
        PanelStep::WriteCfg { path, cfg } => PanelStepV::WriteCfg(path@, cfg@),
        PanelStep::UpdateCfg { path, patch } => PanelStepV::UpdateCfg(path@, patch@),
        PanelStep::CreateDesktopDir { path } => PanelStepV::CreateDesktopDir(path@),
        PanelStep::LinkDesktopFile { path, target } => PanelStepV::LinkDesktopFile(path@, target@),
        PanelStep::RemoveDesktopFile { path } => PanelStepV::RemoveDesktopFile(path@),
    }
}

pub open spec fn panel_steps_view(s: Seq<PanelStep>) -> Seq<PanelStepV> {
    s.map_values(|x: PanelStep| panel_step_view(x))
}

/// The steps that create a desktop file of the plugin `pid`.
pub open spec fn desktop_file_steps(f: DesktopFile, pid: (Seq<char>, u64)) -> Seq<PanelStepV> {
    match f.content {
        DesktopFileContent::Cfg(c) => seq![PanelStepV::WriteCfg(desktop_file_name(pid, f.id), c@)],
        DesktopFileContent::Link(l) => seq![
            PanelStepV::LinkDesktopFile(desktop_file_name(pid, f.id), l.path@),
        ],
    }
}

pub open spec fn files_steps(s: Seq<(u64, DesktopFile)>, pid: (Seq<char>, u64)) -> Seq<PanelStepV>
    decreases s.len(),
{
    if s.len() == 0 {
        Seq::empty()
    } else {
        desktop_file_steps(s[0].1, pid) + files_steps(s.drop_first(), pid)
    }
}

/// The steps that create a plugin's configuration.
pub open spec fn plugin_config_steps(c: PluginConfig) -> Seq<PanelStepV> {
    match c.file {
        PluginConfigFile::Rc(cfg) => seq![PanelStepV::WriteCfg(rc_name(c.id@), cfg@)],
        PluginConfigFile::DesktopDir(d) => seq![PanelStepV::CreateDesktopDir(plugin_base(c.id@))]
            + files_steps(d.files.0.seq(), c.id@),
    }
}

/// The steps that apply the change of a desktop file.
pub open spec fn file_patch_steps(p: DesktopFilePatch, pid: (Seq<char>, u64)) -> Seq<PanelStepV> {
    match p {
        DesktopFilePatch::Cfg(q) => seq![PanelStepV::UpdateCfg(desktop_file_name(pid, q.id), q.cfg@)],
        DesktopFilePatch::Link(q) => match q.path {
            Some(t) => seq![
                PanelStepV::RemoveDesktopFile(desktop_file_name(pid, q.id)),
                PanelStepV::LinkDesktopFile(desktop_file_name(pid, q.id), t@),
            ],
            None => Seq::empty(),
        },
        DesktopFilePatch::Changed(f) => desktop_file_steps(f, pid),
    }
}

/// Planning the change of a desktop file whose content stays a CFG file updates the file, at its
/// path, with the difference of the two contents, which laid over the old content gives the old
/// content updated with the new one; a link whose target changes is removed and linked to the new
/// target, and one whose target stays is left alone; a file whose kind changes is written anew.
pub proof fn lemma_file_patch_steps_update(old: DesktopFile, new: DesktopFile, p: DesktopFilePatch, pid: (Seq<char>, u64))
    requires
        p.made_of(old, new),
    ensures
        match (old.content, new.content) {
            (DesktopFileContent::Cfg(a), DesktopFileContent::Cfg(b)) => file_patch_steps(p, pid) == seq![
                PanelStepV::UpdateCfg(desktop_file_name(pid, new.id), cfg_patch_diff(a@, b@)),
            ] && crate::cfg::cfg_patch_apply(cfg_patch_diff(a@, b@), a@) == crate::cfg::merge_cfg(a@, b@),
            (DesktopFileContent::Cfg(_), DesktopFileContent::Link(_)) => file_patch_steps(p, pid)
                == desktop_file_steps(new, pid),
            (DesktopFileContent::Link(_), DesktopFileContent::Cfg(_)) => file_patch_steps(p, pid)
                == desktop_file_steps(new, pid),
            (DesktopFileContent::Link(a), DesktopFileContent::Link(b)) => if link_same(a.path@, b.path@) {
                file_patch_steps(p, pid) == Seq::<PanelStepV>::empty()
            } else {
                file_patch_steps(p, pid) == seq![
                    PanelStepV::RemoveDesktopFile(desktop_file_name(pid, new.id)),
                    PanelStepV::LinkDesktopFile(desktop_file_name(pid, new.id), b.path@),
                ]
            },
        },
{
    match (old.content, new.content) {
        (DesktopFileContent::Cfg(a), DesktopFileContent::Cfg(b)) => {
            crate::cfg::lemma_cfg_apply_diff(a@, b@);
        },
        _ => {},
    }
}

pub open spec fn file_patches_steps(s: Seq<(u64, DesktopFilePatch)>, pid: (Seq<char>, u64)) -> Seq<PanelStepV>
    decreases s.len(),
{
    if s.len() == 0 {
        Seq::empty()
    } else {
        file_patch_steps(s[0].1, pid) + file_patches_steps(s.drop_first(), pid)
    }
}

pub open spec fn removed_files_steps(s: Seq<(u64, ())>, pid: (Seq<char>, u64)) -> Seq<PanelStepV>
    decreases s.len(),
{
    if s.len() == 0 {
        Seq::empty()
    } else {
        seq![PanelStepV::RemoveDesktopFile(desktop_file_name(pid, s[0].0))] + removed_files_steps(
            s.drop_first(),
            pid,
        )
    }
}

/// The steps that apply the change of a desktop directory: changed files, added files, then
/// removed files, each in number order.
pub open spec fn dir_patch_steps(p: DesktopDirPatch) -> Seq<PanelStepV> {
    file_patches_steps(p.files.changed.seq(), p.id@) + files_steps(p.files.added.seq(), p.id@)
        + removed_files_steps(p.files.removed.seq(), p.id@)
}

/// The steps that apply the change of a plugin's configuration; a replaced plugin is removed
/// first.
pub open spec fn plugin_patch_steps(p: PluginConfigPatch) -> Seq<PanelStepV> {
    match p {
        PluginConfigPatch::Rc(q) => seq![PanelStepV::UpdateCfg(rc_name(q.id@), q.cfg@)],
        PluginConfigPatch::DesktopDir(q) => dir_patch_steps(q),
        PluginConfigPatch::Changed(c) => seq![PanelStepV::RemovePlugin(c.id@)] + plugin_config_steps(c),
    }
}

pub open spec fn plugin_patches_steps(s: Seq<((PluginId, PluginConfigPatch))>) -> Seq<PanelStepV>
    decreases s.len(),
{
    if s.len() == 0 {
        Seq::empty()
    } else {
        plugin_patch_steps(s[0].1) + plugin_patches_steps(s.drop_first())
    }
}

pub open spec fn plugin_configs_steps(s: Seq<(PluginId, PluginConfig)>) -> Seq<PanelStepV>
    decreases s.len(),
{
    if s.len() == 0 {
        Seq::empty()
    } else {
        plugin_config_steps(s[0].1) + plugin_configs_steps(s.drop_first())
    }
}

pub open spec fn removed_plugins_steps(s: Seq<(PluginId, ())>) -> Seq<PanelStepV>
    decreases s.len(),
{
    if s.len() == 0 {
        Seq::empty()
    } else {
        seq![PanelStepV::RemovePlugin(s[0].0@)] + removed_plugins_steps(s.drop_first())
    }
}

/// The steps that apply the change of the plugins: changed plugins, added plugins, then removed
/// plugins, each in id order.
pub open spec fn plugins_patch_steps(p: PluginConfigsPatch) -> Seq<PanelStepV> {
    plugin_patches_steps(p.0.changed.seq()) + plugin_configs_steps(p.0.added.seq())
        + removed_plugins_steps(p.0.removed.seq())
}


/// A step of one changed file's plan is a step of the plan of the files.
proof fn lemma_file_patches_steps_has(s: Seq<(u64, DesktopFilePatch)>, pid: (Seq<char>, u64), i: int, x: PanelStepV)
    requires
        0 <= i < s.len(),
        file_patch_steps(s[i].1, pid).contains(x),
    ensures
        file_patches_steps(s, pid).contains(x),
    decreases s.len(),
{
    let a = file_patch_steps(s[0].1, pid);
    let b = file_patches_steps(s.drop_first(), pid);
    assert(file_patches_steps(s, pid) == a + b);
    if i == 0 {
        let j = choose|j: int| 0 <= j < a.len() && a[j] == x;
        assert((a + b)[j] == x);
    } else {
        assert(s.drop_first()[i - 1] == s[i]);
        lemma_file_patches_steps_has(s.drop_first(), pid, i - 1, x);
        let j = choose|j: int| 0 <= j < b.len() && b[j] == x;
        assert((a + b)[a.len() + j] == x);
    }
}

/// A step of one changed plugin's plan is a step of the plan of the plugins.
proof fn lemma_plugin_patches_steps_has(s: Seq<(PluginId, PluginConfigPatch)>, i: int, x: PanelStepV)
    requires
        0 <= i < s.len(),
        plugin_patch_steps(s[i].1).contains(x),
    ensures
        plugin_patches_steps(s).contains(x),
    decreases s.len(),
{
    let a = plugin_patch_steps(s[0].1);
    let b = plugin_patches_steps(s.drop_first());
    assert(plugin_patches_steps(s) == a + b);
    if i == 0 {
        let j = choose|j: int| 0 <= j < a.len() && a[j] == x;
        assert((a + b)[j] == x);
    } else {
        assert(s.drop_first()[i - 1] == s[i]);
        lemma_plugin_patches_steps_has(s.drop_first(), i - 1, x);
        let j = choose|j: int| 0 <= j < b.len() && b[j] == x;
        assert((a + b)[a.len() + j] == x);
    }
}

/// The desktop file numbered `k` of a plugin kept in a desktop directory.
pub open spec fn desktop_file_at(c: PluginConfig, k: u64) -> Option<DesktopFile> {
    match c.file {
        PluginConfigFile::DesktopDir(d) => if d.files.0@.contains_key(k) {
            Some(d.files.0@[k])
        } else {
            None
        },
        PluginConfigFile::Rc(_) => None,
    }
}

/// Planning the change of the plugins from `old` to `new` (a change that the diff made) updates
/// every desktop file whose CFG content changes, of a plugin kept in a desktop directory in both:
/// the plan holds an update of that file, at its path, with the difference of the two contents.
pub proof fn lemma_plan_updates_desktop_cfg(
    old: Map<(Seq<char>, u64), PluginConfig>,
    new: Map<(Seq<char>, u64), PluginConfig>,
    p: PluginConfigsPatch,
    pid: (Seq<char>, u64),
    k: u64,
    of: DesktopFile,
    nf: DesktopFile,
)
    requires
        map_made_of(p.0, old, new),
        old.contains_key(pid),
        new.contains_key(pid),
        desktop_file_at(old[pid], k) == Some(of),
        desktop_file_at(new[pid], k) == Some(nf),
        of.content is Cfg,
        nf.content is Cfg,
        !cfg_patch_is_empty(cfg_patch_diff(of.content->Cfg_0@, nf.content->Cfg_0@)),
    ensures
        plugins_patch_steps(p).contains(
            PanelStepV::UpdateCfg(
                desktop_file_name(new[pid].id@, nf.id),
                cfg_patch_diff(of.content->Cfg_0@, nf.content->Cfg_0@),
            ),
        ),
{
    let oc = old[pid];
    let nc = new[pid];
    let d = cfg_patch_diff(of.content->Cfg_0@, nf.content->Cfg_0@);
    let x = PanelStepV::UpdateCfg(desktop_file_name(nc.id@, nf.id), d);
    match (oc.file, nc.file) {
        (PluginConfigFile::DesktopDir(a), PluginConfigFile::DesktopDir(b)) => {
            assert(a.files.0@.contains_key(k) && a.files.0@[k] == of);
            assert(b.files.0@.contains_key(k) && b.files.0@[k] == nf);
            assert(!DesktopFilePatch::diff_is_empty(of, nf));
            assert(!map_diff_is_empty::<u64, DesktopFilePatch>(a.files.0@, b.files.0@));
            assert(!PluginConfigPatch::diff_is_empty(oc, nc));
            assert(p.0.changed@.contains_key(pid));
            let cp = p.0.changed@[pid];
            assert(cp.made_of(oc, nc));
            match cp {
                PluginConfigPatch::DesktopDir(q) => {
                    assert(q.files.changed@.contains_key(k));
                    let fp = q.files.changed@[k];
                    assert(fp.made_of(of, nf));
                    match fp {
                        DesktopFilePatch::Cfg(r) => {
                            assert(file_patch_steps(fp, q.id@)[0] == x);
                            let i = lemma_map_of_entry(q.files.changed.seq(), k);
                            lemma_file_patches_steps_has(q.files.changed.seq(), q.id@, i, x);
                            let s1 = file_patches_steps(q.files.changed.seq(), q.id@);
                            let s2 = files_steps(q.files.added.seq(), q.id@);
                            let s3 = removed_files_steps(q.files.removed.seq(), q.id@);
                            let j = choose|j: int| 0 <= j < s1.len() && s1[j] == x;
                            assert((s1 + s2 + s3)[j] == x);
                            assert(plugin_patch_steps(cp).contains(x));
                            let m = lemma_map_of_entry(p.0.changed.seq(), pid);
                            lemma_plugin_patches_steps_has(p.0.changed.seq(), m, x);
                            let t1 = plugin_patches_steps(p.0.changed.seq());
                            let t2 = plugin_configs_steps(p.0.added.seq());
                            let t3 = removed_plugins_steps(p.0.removed.seq());
                            let h = choose|h: int| 0 <= h < t1.len() && t1[h] == x;
                            assert((t1 + t2 + t3)[h] == x);
                        },
                        _ => {},
                    }
                },
                _ => {},
            }
        },
        _ => {},
    }
}

/// A step of one added plugin's plan is a step of the plan of the added plugins.
proof fn lemma_plugin_configs_steps_has(s: Seq<(PluginId, PluginConfig)>, i: int, x: PanelStepV)
    requires
        0 <= i < s.len(),
        plugin_config_steps(s[i].1).contains(x),
    ensures
        plugin_configs_steps(s).contains(x),
    decreases s.len(),
{
    let a = plugin_config_steps(s[0].1);
    let b = plugin_configs_steps(s.drop_first());
    assert(plugin_configs_steps(s) == a + b);
    if i == 0 {
        let j = choose|j: int| 0 <= j < a.len() && a[j] == x;
        assert((a + b)[j] == x);
    } else {
        assert(s.drop_first()[i - 1] == s[i]);
        lemma_plugin_configs_steps_has(s.drop_first(), i - 1, x);
        let j = choose|j: int| 0 <= j < b.len() && b[j] == x;
        assert((a + b)[a.len() + j] == x);
    }
}

/// Each removed plugin's removal is a step of the plan of the removed plugins.
proof fn lemma_removed_plugins_steps_has(s: Seq<(PluginId, ())>, i: int)
    requires
        0 <= i < s.len(),
    ensures
        removed_plugins_steps(s).contains(PanelStepV::RemovePlugin(s[i].0@)),
    decreases s.len(),
{
    let x = PanelStepV::RemovePlugin(s[i].0@);
    let a = seq![PanelStepV::RemovePlugin(s[0].0@)];
    let b = removed_plugins_steps(s.drop_first());
    assert(removed_plugins_steps(s) == a + b);
    if i == 0 {
        assert((a + b)[0] == x);
    } else {
        assert(s.drop_first()[i - 1] == s[i]);
        lemma_removed_plugins_steps_has(s.drop_first(), i - 1);
        let j = choose|j: int| 0 <= j < b.len() && b[j] == x;
        assert((a + b)[a.len() + j] == x);
    }
}

/// A step of one added file's plan is a step of the plan of the added files.
proof fn lemma_files_steps_has(s: Seq<(u64, DesktopFile)>, pid: (Seq<char>, u64), i: int, x: PanelStepV)
    requires
        0 <= i < s.len(),
        desktop_file_steps(s[i].1, pid).contains(x),
    ensures
        files_steps(s, pid).contains(x),
    decreases s.len(),
{
    let a = desktop_file_steps(s[0].1, pid);
    let b = files_steps(s.drop_first(), pid);
    assert(files_steps(s, pid) == a + b);
    if i == 0 {
        let j = choose|j: int| 0 <= j < a.len() && a[j] == x;
        assert((a + b)[j] == x);
    } else {
        assert(s.drop_first()[i - 1] == s[i]);
        lemma_files_steps_has(s.drop_first(), pid, i - 1, x);
        let j = choose|j: int| 0 <= j < b.len() && b[j] == x;
        assert((a + b)[a.len() + j] == x);
    }
}

/// Each removed file's removal is a step of the plan of the removed files.
proof fn lemma_removed_files_steps_has(s: Seq<(u64, ())>, pid: (Seq<char>, u64), i: int)
    requires
        0 <= i < s.len(),
    ensures
        removed_files_steps(s, pid).contains(PanelStepV::RemoveDesktopFile(desktop_file_name(pid, s[i].0))),
    decreases s.len(),
{
    let x = PanelStepV::RemoveDesktopFile(desktop_file_name(pid, s[i].0));
    let a = seq![PanelStepV::RemoveDesktopFile(desktop_file_name(pid, s[0].0))];
    let b = removed_files_steps(s.drop_first(), pid);
    assert(removed_files_steps(s, pid) == a + b);
    if i == 0 {
        assert((a + b)[0] == x);
    } else {
        assert(s.drop_first()[i - 1] == s[i]);
        lemma_removed_files_steps_has(s.drop_first(), pid, i - 1);
        let j = choose|j: int| 0 <= j < b.len() && b[j] == x;
        assert((a + b)[a.len() + j] == x);
    }
}

/// Planning the change of the plugins from `old` to `new` (a change that the diff made) updates
/// the RC file of every plugin kept in an RC file in both whose content changes, at its path, with
/// the difference of the two contents.
pub proof fn lemma_plan_updates_rc(
    old: Map<(Seq<char>, u64), PluginConfig>,
    new: Map<(Seq<char>, u64), PluginConfig>,
    p: PluginConfigsPatch,
    pid: (Seq<char>, u64),
)
    requires
        map_made_of(p.0, old, new),
        old.contains_key(pid),
        new.contains_key(pid),
        old[pid].file is Rc,
        new[pid].file is Rc,
        !cfg_patch_is_empty(cfg_patch_diff(old[pid].file->Rc_0@, new[pid].file->Rc_0@)),
    ensures
        plugins_patch_steps(p).contains(
            PanelStepV::UpdateCfg(
                rc_name(new[pid].id@),
                cfg_patch_diff(old[pid].file->Rc_0@, new[pid].file->Rc_0@),
            ),
        ),
{
    let x = PanelStepV::UpdateCfg(rc_name(new[pid].id@), cfg_patch_diff(old[pid].file->Rc_0@, new[pid].file->Rc_0@));
    assert(!PluginConfigPatch::diff_is_empty(old[pid], new[pid]));
    assert(p.0.changed@.contains_key(pid));
    let cp = p.0.changed@[pid];
    assert(cp.made_of(old[pid], new[pid]));
    assert(plugin_patch_steps(cp)[0] == x);
    let m = lemma_map_of_entry(p.0.changed.seq(), pid);
    lemma_plugin_patches_steps_has(p.0.changed.seq(), m, x);
    let t1 = plugin_patches_steps(p.0.changed.seq());
    let t2 = plugin_configs_steps(p.0.added.seq());
    let t3 = removed_plugins_steps(p.0.removed.seq());
    let h = choose|h: int| 0 <= h < t1.len() && t1[h] == x;
    assert((t1 + t2 + t3)[h] == x);
}

/// Planning the change of the plugins from `old` to `new` (a change that the diff made) creates
/// every plugin that only `new` has: each step that creates its configuration is in the plan.
pub proof fn lemma_plan_creates_added_plugin(
    old: Map<(Seq<char>, u64), PluginConfig>,
    new: Map<(Seq<char>, u64), PluginConfig>,
    p: PluginConfigsPatch,
    pid: (Seq<char>, u64),
    x: PanelStepV,
)
    requires
        map_made_of(p.0, old, new),
        !old.contains_key(pid),
        new.contains_key(pid),
        plugin_config_steps(new[pid]).contains(x),
    ensures
        plugins_patch_steps(p).contains(x),
{
    assert(p.0.added@.contains_key(pid));
    assert(p.0.added@[pid] == new[pid]);
    let m = lemma_map_of_entry(p.0.added.seq(), pid);
    lemma_plugin_configs_steps_has(p.0.added.seq(), m, x);
    let t1 = plugin_patches_steps(p.0.changed.seq());
    let t2 = plugin_configs_steps(p.0.added.seq());
    let t3 = removed_plugins_steps(p.0.removed.seq());
    let h = choose|h: int| 0 <= h < t2.len() && t2[h] == x;
    assert((t1 + t2 + t3)[t1.len() + h] == x);
}

/// Planning the change of the plugins from `old` to `new` (a change that the diff made) removes
/// every plugin that `new` lacks.
pub proof fn lemma_plan_removes_plugin(
    old: Map<(Seq<char>, u64), PluginConfig>,
    new: Map<(Seq<char>, u64), PluginConfig>,
    p: PluginConfigsPatch,
    pid: (Seq<char>, u64),
)
    requires
        map_made_of(p.0, old, new),
        old.contains_key(pid),
        !new.contains_key(pid),
    ensures
        plugins_patch_steps(p).contains(PanelStepV::RemovePlugin(pid)),
{
    let x = PanelStepV::RemovePlugin(pid);
    assert(p.0.removed@.contains_key(pid));
    let m = lemma_map_of_entry(p.0.removed.seq(), pid);
    lemma_removed_plugins_steps_has(p.0.removed.seq(), m);
    let t1 = plugin_patches_steps(p.0.changed.seq());
    let t2 = plugin_configs_steps(p.0.added.seq());
    let t3 = removed_plugins_steps(p.0.removed.seq());
    let h = choose|h: int| 0 <= h < t3.len() && t3[h] == x;
    assert((t1 + t2 + t3)[t1.len() + t2.len() + h] == x);
}

/// Planning the change of a plugin's desktop directory from `old` to `new` (a change that the
/// diff made) creates every file that only `new` has, and removes every file that `new` lacks, at
/// its path.
pub proof fn lemma_dir_plan_adds_and_removes(
    old: (PluginId, DesktopDir),
    new: (PluginId, DesktopDir),
    q: DesktopDirPatch,
    k: u64,
    x: PanelStepV,
)
    requires
        q.made_of(old, new),
    ensures
        !old.1.files.0@.contains_key(k) && new.1.files.0@.contains_key(k) && desktop_file_steps(
            new.1.files.0@[k],
            new.0@,
        ).contains(x) ==> dir_patch_steps(q).contains(x),
        old.1.files.0@.contains_key(k) && !new.1.files.0@.contains_key(k) ==> dir_patch_steps(q).contains(
            PanelStepV::RemoveDesktopFile(desktop_file_name(new.0@, k)),
        ),
{
    let s1 = file_patches_steps(q.files.changed.seq(), q.id@);
    let s2 = files_steps(q.files.added.seq(), q.id@);
    let s3 = removed_files_steps(q.files.removed.seq(), q.id@);
    if !old.1.files.0@.contains_key(k) && new.1.files.0@.contains_key(k) && desktop_file_steps(
        new.1.files.0@[k],
        new.0@,
    ).contains(x) {
        assert(q.files.added@.contains_key(k));
        let i = lemma_map_of_entry(q.files.added.seq(), k);
        lemma_files_steps_has(q.files.added.seq(), q.id@, i, x);
        let h = choose|h: int| 0 <= h < s2.len() && s2[h] == x;
        assert((s1 + s2 + s3)[s1.len() + h] == x);
    }
    if old.1.files.0@.contains_key(k) && !new.1.files.0@.contains_key(k) {
        let y = PanelStepV::RemoveDesktopFile(desktop_file_name(new.0@, k));
        assert(q.files.removed@.contains_key(k));
        let i = lemma_map_of_entry(q.files.removed.seq(), k);
        lemma_removed_files_steps_has(q.files.removed.seq(), q.id@, i);
        let h = choose|h: int| 0 <= h < s3.len() && s3[h] == y;
        assert((s1 + s2 + s3)[s1.len() + s2.len() + h] == y);
    }
}

impl DesktopFile {
    /// Appends the steps that create this desktop file of the plugin `pid`.
    pub fn push_steps(self, pid: &PluginId, steps: &mut Vec<PanelStep>)
        ensures
            panel_steps_view(final(steps)@) == panel_steps_view(old(steps)@) + desktop_file_steps(
                self,
                pid@,
            ),
    {
        let ghost before = steps@;
        let ghost me = self;
        let path = pid.desktop_file_name(self.id);
        match self.content {
            DesktopFileContent::Cfg(cfg) => steps.push(PanelStep::WriteCfg { path, cfg }),
            DesktopFileContent::Link(link) => steps.push(
                PanelStep::LinkDesktopFile { path, target: link.path },
            ),
        }
        proof {
            assert(panel_steps_view(steps@) =~= panel_steps_view(before) + desktop_file_steps(me, pid@));
        }
    }
}

/// Appends the steps that create the desktop files of the plugin `pid`, in number order.
fn push_files_steps(files: OrdMap<u64, DesktopFile>, pid: &PluginId, steps: &mut Vec<PanelStep>)
    ensures
        panel_steps_view(final(steps)@) == panel_steps_view(old(steps)@) + files_steps(
            files.seq(),
            pid@,
        ),
{
    let ghost before = steps@;
    let ghost all = files.seq();
    let mut entries = files.into_entries();
    while entries.len() > 0
        invariant
            panel_steps_view(before) + files_steps(all, pid@) == panel_steps_view(steps@) + files_steps(
                entries@,
                pid@,
            ),
        decreases entries.len(),
    {
        let ghost prev = entries@;
        let ghost prev_steps = steps@;
        let (_, file) = entries.remove(0);
        proof {
            assert(prev.drop_first() =~= entries@);
        }
        file.push_steps(pid, steps);
        proof {
            assert(panel_steps_view(prev_steps) + files_steps(prev, pid@) =~= panel_steps_view(steps@)
                + files_steps(entries@, pid@));
        }
    }
    proof {
        assert(panel_steps_view(steps@) + files_steps(entries@, pid@) =~= panel_steps_view(steps@));
    }
}

impl PluginConfig {
    /// Appends the steps that create this plugin's configuration.
    pub fn push_steps(self, steps: &mut Vec<PanelStep>)
        ensures
            panel_steps_view(final(steps)@) == panel_steps_view(old(steps)@) + plugin_config_steps(
                self,
            ),
    {
        let ghost before = steps@;
        let ghost me = self;
        let PluginConfig { id, file } = self;
        match file {
            PluginConfigFile::Rc(cfg) => {
                let path = id.rc_file_name();
                steps.push(PanelStep::WriteCfg { path, cfg });
                proof {
                    assert(panel_steps_view(steps@) =~= panel_steps_view(before) + plugin_config_steps(me));
                }
            },
            PluginConfigFile::DesktopDir(dir) => {
                let path = id.base_name();
                steps.push(PanelStep::CreateDesktopDir { path });
                let ghost mid = steps@;
                push_files_steps(dir.files.0, &id, steps);
                proof {
                    assert(panel_steps_view(mid) =~= panel_steps_view(before) + seq![
                        PanelStepV::CreateDesktopDir(plugin_base(id@)),
                    ]);
                    assert(panel_steps_view(steps@) =~= panel_steps_view(before) + plugin_config_steps(me));
                }
            },
        }
    }
}

impl DesktopFilePatch {
    /// Appends the steps that apply this change to a desktop file of the plugin `pid`.
    pub fn push_steps(self, pid: &PluginId, steps: &mut Vec<PanelStep>)
        ensures
            panel_steps_view(final(steps)@) == panel_steps_view(old(steps)@) + file_patch_steps(
                self,
                pid@,
            ),
    {
        let ghost before = steps@;
        let ghost me = self;
        match self {
            DesktopFilePatch::Cfg(q) => {
                let path = pid.desktop_file_name(q.id);
                steps.push(PanelStep::UpdateCfg { path, patch: q.cfg });
            },
            DesktopFilePatch::Link(q) => {
                if let Some(target) = q.path {
                    let path = pid.desktop_file_name(q.id);
                    let path2 = pid.desktop_file_name(q.id);
                    steps.push(PanelStep::RemoveDesktopFile { path });
                    steps.push(PanelStep::LinkDesktopFile { path: path2, target });
                }
            },
            DesktopFilePatch::Changed(f) => {
                f.push_steps(pid, steps);
            },
        }
        proof {
            assert(panel_steps_view(steps@) =~= panel_steps_view(before) + file_patch_steps(me, pid@));
        }
    }
}

impl DesktopDirPatch {
    /// Appends the steps that apply this change: changed files, added files, removed files.
    pub fn push_steps(self, steps: &mut Vec<PanelStep>)
        ensures
            panel_steps_view(final(steps)@) == panel_steps_view(old(steps)@) + dir_patch_steps(self),
    {
        let ghost before = steps@;
        let ghost me = self;
        let DesktopDirPatch { id, files } = self;
        let MapPatch { changed, added, removed } = files;
        let ghost cs = changed.seq();
        let mut entries = changed.into_entries();
        while entries.len() > 0
            invariant
                panel_steps_view(before) + file_patches_steps(cs, id@) == panel_steps_view(steps@)
                    + file_patches_steps(entries@, id@),
            decreases entries.len(),
        {
            let ghost prev = entries@;
            let ghost prev_steps = steps@;
            let (_, p) = entries.remove(0);
            proof {
                assert(prev.drop_first() =~= entries@);
            }
            p.push_steps(&id, steps);
            proof {
                assert(panel_steps_view(prev_steps) + file_patches_steps(prev, id@) =~= panel_steps_view(
                    steps@,
                ) + file_patches_steps(entries@, id@));
            }
        }
        let ghost after_changed = steps@;
        proof {
            assert(panel_steps_view(steps@) + file_patches_steps(entries@, id@) =~= panel_steps_view(steps@));
        }
        push_files_steps(added, &id, steps);
        let ghost after_added = steps@;
        let ghost rs = removed.seq();
        let mut keys = removed.into_entries();
        while keys.len() > 0
            invariant
                panel_steps_view(after_added) + removed_files_steps(rs, id@) == panel_steps_view(steps@)
                    + removed_files_steps(keys@, id@),
            decreases keys.len(),
        {
            let ghost prev = keys@;
            let ghost prev_steps = steps@;
            let (k, _) = keys.remove(0);
            proof {
                assert(prev.drop_first() =~= keys@);
            }
            let path = id.desktop_file_name(k);
            steps.push(PanelStep::RemoveDesktopFile { path });
            proof {
                assert(panel_steps_view(prev_steps) + removed_files_steps(prev, id@) =~= panel_steps_view(
                    steps@,
                ) + removed_files_steps(keys@, id@));
            }
        }
        proof {
            assert(panel_steps_view(steps@) + removed_files_steps(keys@, id@) =~= panel_steps_view(steps@));
            assert(panel_steps_view(steps@) =~= panel_steps_view(before) + dir_patch_steps(me));
        }
    }
}

impl PluginConfigPatch {
    /// Appends the steps that apply this change; a replaced plugin is removed first.
    pub fn push_steps(self, steps: &mut Vec<PanelStep>)
        ensures
            panel_steps_view(final(steps)@) == panel_steps_view(old(steps)@) + plugin_patch_steps(
                self,
            ),
    {
        let ghost before = steps@;
        let ghost me = self;
        match self {
            PluginConfigPatch::Rc(q) => {
                let path = q.id.rc_file_name();
                steps.push(PanelStep::UpdateCfg { path, patch: q.cfg });
                proof {
                    assert(panel_steps_view(steps@) =~= panel_steps_view(before) + plugin_patch_steps(me));
                }
            },
            PluginConfigPatch::DesktopDir(q) => {
                q.push_steps(steps);
            },
            PluginConfigPatch::Changed(c) => {
                let plugin = c.id.clone_key();
                steps.push(PanelStep::RemovePlugin { plugin });
                let ghost mid = steps@;
                c.push_steps(steps);
                proof {
                    assert(panel_steps_view(mid) =~= panel_steps_view(before) + seq![
                        PanelStepV::RemovePlugin(c.id@),
                    ]);
                    assert(panel_steps_view(steps@) =~= panel_steps_view(before) + plugin_patch_steps(me));
                }
            },
        }
    }
}

impl PluginConfigsPatch {
    /// The steps that apply the change, in the order they are taken: changed plugins, added
    /// plugins, then removed plugins.
    pub fn plan(self) -> (r: Vec<PanelStep>)
        ensures
            panel_steps_view(r@) == plugins_patch_steps(self),
    {
        let ghost me = self;
        let mut steps: Vec<PanelStep> = Vec::new();
        let MapPatch { changed, added, removed } = self.0;
        let ghost cs = changed.seq();
        let mut entries = changed.into_entries();
        proof {
            assert(panel_steps_view(steps@) =~= Seq::<PanelStepV>::empty());
        }
        while entries.len() > 0
            invariant
                plugin_patches_steps(cs) == panel_steps_view(steps@) + plugin_patches_steps(entries@),
            decreases entries.len(),
        {
            let ghost prev = entries@;
            let ghost prev_steps = steps@;
            let (_, p) = entries.remove(0);
            proof {
                assert(prev.drop_first() =~= entries@);
            }
            p.push_steps(&mut steps);
            proof {
                assert(panel_steps_view(prev_steps) + plugin_patches_steps(prev) =~= panel_steps_view(steps@)
                    + plugin_patches_steps(entries@));
            }
        }
        let ghost after_changed = steps@;
        let ghost ads = added.seq();
        let mut configs = added.into_entries();
        proof {
            assert(panel_steps_view(steps@) + plugin_patches_steps(entries@) =~= panel_steps_view(steps@));
        }
        while configs.len() > 0
            invariant
                panel_steps_view(after_changed) + plugin_configs_steps(ads) == panel_steps_view(steps@)
                    + plugin_configs_steps(configs@),
            decreases configs.len(),
        {
            let ghost prev = configs@;
            let ghost prev_steps = steps@;
            let (_, c) = configs.remove(0);
            proof {
                assert(prev.drop_first() =~= configs@);
            }
            c.push_steps(&mut steps);
            proof {
                assert(panel_steps_view(prev_steps) + plugin_configs_steps(prev) =~= panel_steps_view(steps@)
                    + plugin_configs_steps(configs@));
            }
        }
        let ghost after_added = steps@;
        let ghost rs = removed.seq();
        let mut keys = removed.into_entries();
        proof {
            assert(panel_steps_view(steps@) + plugin_configs_steps(configs@) =~= panel_steps_view(steps@));
        }
        while keys.len() > 0
            invariant
                panel_steps_view(after_added) + removed_plugins_steps(rs) == panel_steps_view(steps@)
                    + removed_plugins_steps(keys@),
            decreases keys.len(),
        {
            let ghost prev = keys@;
            let ghost prev_steps = steps@;
            let (plugin, _) = keys.remove(0);
            proof {
                assert(prev.drop_first() =~= keys@);
            }
            steps.push(PanelStep::RemovePlugin { plugin });
            proof {
                assert(panel_steps_view(prev_steps) + removed_plugins_steps(prev) =~= panel_steps_view(steps@)
                    + removed_plugins_steps(keys@));
            }
        }
        proof {
            assert(panel_steps_view(steps@) + removed_plugins_steps(keys@) =~= panel_steps_view(steps@));
            assert(panel_steps_view(steps@) =~= plugins_patch_steps(me));
        }
        steps
    }
}

/// How a plugin's configuration is removed.
pub enum RemovePluginAction {
    RemoveRcFile,
    RemoveDesktopDir,
}

/// How to remove a plugin's configuration, given what exists: its RC file if that is a file,
/// else its desktop directory if that is a directory; `None` when neither exists.
pub fn remove_plugin_action(rc_is_file: bool, desktop_dir_is_dir: bool) -> (r: Option<RemovePluginAction>)
    ensures
        rc_is_file ==> r == Some(RemovePluginAction::RemoveRcFile),
        !rc_is_file && desktop_dir_is_dir ==> r == Some(RemovePluginAction::RemoveDesktopDir),
        !rc_is_file && !desktop_dir_is_dir ==> r is None,
{
    if rc_is_file {
        Some(RemovePluginAction::RemoveRcFile)
    } else if desktop_dir_is_dir {
        Some(RemovePluginAction::RemoveDesktopDir)
    } else {
        None
    }
}


/// A signed integer read as `str::parse::<i32>` reads it: an optional sign, then at least one
/// decimal digit, denoting a number that fits.
pub open spec fn parse_i32_text(s: Seq<char>) -> Option<i32> {
    if s.len() > 0 && s[0] == '-' {
        let d = s.drop_first();
        if d.len() > 0 && d[0] != '+' && parse_decimal(d) is Some && parse_decimal(d)->0 <= 0x8000_0000 {
            Some((0 - parse_decimal(d)->0) as i32)
        } else {
            None
        }
    } else {
        match parse_decimal(s) {
            Some(v) => if v <= 0x7fff_ffff {
                Some(v as i32)
            } else {
                None
            },
            None => None,
        }
    }
}

/// Reads a signed integer as `str::parse::<i32>` does; see `parse_i32_text`.
pub fn parse_i32(s: &str) -> (r: Option<i32>)
    ensures
        r == parse_i32_text(s@),
{
    let c = crate::text::chars_of(s);
    if c.len() > 0 && c[0] == '-' {
        let rest = crate::text::slice_string(s, 1, c.len());
        proof {
            assert(rest@ =~= s@.drop_first());
        }
        let rc = crate::text::chars_of(rest.as_str());
        if rc.len() == 0 || rc[0] == '+' {
            return None;
        }
        match parse_u64(rest.as_str()) {
            Some(v) => if v <= 0x8000_0000 {
                Some((0 - (v as i64)) as i32)
            } else {
                None
            },
            None => None,
        }
    } else {
        match parse_u64(s) {
            Some(v) => if v <= 0x7fff_ffff {
                Some(v as i32)
            } else {
                None
            },
            None => None,
        }
    }
}

/// Reads an unsigned 32-bit integer as `str::parse::<u32>` does.
pub fn parse_u32(s: &str) -> (r: Option<u32>)
    ensures
        r == (match parse_decimal(s@) {
            Some(v) => if v <= u32::MAX {
                Some(v as u32)
            } else {
                None::<u32>
            },
            None => None,
        }),
{
    match parse_u64(s) {
        Some(v) => if v <= 0xffff_ffff {
            Some(v as u32)
        } else {
            None
        },
        None => None,
    }
}

} // verus!
