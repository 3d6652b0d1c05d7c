use crate::cfg::{cfg_patch_diff, cfg_patch_is_empty, Cfg, CfgPatch, CfgPatchView, CfgView};
use crate::json::{json_diff, json_view, patch_is_empty, patch_view, Json, JsonPatch, JsonV, PatchV};
use crate::ordmap::{has_key, MapKey, OrdMap};
use crate::serde::{Id, IdMap};
use crate::text::{
    compare_str, lemma_seq_lt_irreflexive, lemma_seq_lt_total, lemma_seq_lt_transitive, seq_lt,
    KeyOrder,
};
use vstd::prelude::*;

verus! {

/// The directory a configuration file is relative to.
pub enum ConfigRoot {
    Config,
}

/// A configuration file: its root and its path below it.
pub struct ConfigId {
    pub root: ConfigRoot,
    pub path: String,
}

impl View for ConfigId {
    type V = Seq<char>;

    open spec fn view(&self) -> Seq<char> {
        self.path@
    }
}

impl MapKey for ConfigId {
    open spec fn key_lt(a: Seq<char>, b: Seq<char>) -> bool {
        seq_lt(a, b)
    }

    proof fn lemma_key_lt_irreflexive(a: Seq<char>) {
        lemma_seq_lt_irreflexive(a);
    }

    proof fn lemma_key_lt_transitive(a: Seq<char>, b: Seq<char>, c: Seq<char>) {
        lemma_seq_lt_transitive(a, b, c);
    }

    proof fn lemma_key_lt_total(a: Seq<char>, b: Seq<char>) {
        lemma_seq_lt_total(a, b);
    }

    fn compare_key(&self, other: &Self) -> (r: KeyOrder) {
        compare_str(self.path.as_str(), other.path.as_str())
    }

    fn clone_key(&self) -> (r: Self) {
        ConfigId { root: ConfigRoot::Config, path: self.path.clone() }
    }
}

/// The path that `std::path::Path::join` makes of `base` and `rel`.
pub uninterp spec fn joined_path(base: Seq<char>, rel: Seq<char>) -> Seq<char>;

/// `std::path::Path::join` on paths given as text: `rel` below `base`, or `rel` itself where it
/// is absolute; the result of joining text paths is text again.
#[verifier::external_body]
fn path_join(base: &str, rel: &str) -> (r: String)
    ensures
        r@ == joined_path(base@, rel@),
{
    std::path::Path::new(base).join(rel).to_string_lossy().into_owned()
}

impl ConfigId {
    /// The text of the id: the root in braces, a slash, and the path.
    pub fn to_text(&self) -> (r: String)
        ensures
            r@ == "{config}/"@ + self.path@,
    {
        let mut r = String::from_str("{config}/");
        r.append(self.path.as_str());
        r
    }

    /// The file's path below `config_dir`.
    pub fn full_path(&self, config_dir: &str) -> (r: String)
        ensures
            r@ == joined_path(config_dir@, self.path@),
    {
        match self.root {
            ConfigRoot::Config => path_join(config_dir, self.path.as_str()),
        }
    }
}

/// The content of a configuration file.
pub enum ConfigContent {
    Cfg(Cfg),
    Json(Json),
}

/// What the content of a configuration file denotes.
pub enum ContentV {
    Cfg(CfgView),
    Json(JsonV),
}

pub open spec fn content_view(c: ConfigContent) -> ContentV {
    match c {
        ConfigContent::Cfg(x) => ContentV::Cfg(x@),
        ConfigContent::Json(x) => ContentV::Json(json_view(x.0)),
    }
}

/// A configuration file and its content.
pub struct Config {
    pub id: ConfigId,
    pub content: ConfigContent,
}

impl Id for Config {
    type Id = ConfigId;

    open spec fn spec_id(&self) -> Seq<char> {
        self.id.path@
    }

    fn id(&self) -> (r: &ConfigId) {
        &self.id
    }
}

/// The configuration files, keyed by id.
pub struct Configs(pub IdMap<Config>);

impl Configs {
    pub fn is_empty(&self) -> (r: bool)
        ensures
            r == (self.0.0@ == Map::<Seq<char>, Config>::empty()),
    {
        self.0.is_empty()
    }
}

/// The general configuration: files kept as they are given.
pub struct General {
    pub configs: Configs,
}

impl General {
    pub fn is_empty(&self) -> (r: bool)
        ensures
            r == (self.configs.0.0@ == Map::<Seq<char>, Config>::empty()),
    {
        self.configs.is_empty()
    }
}

/// The change of a configuration file's content.
pub enum ConfigContentPatch {
    Cfg(CfgPatch),
    Json(JsonPatch),
}

/// What the change of a file's content denotes.
pub enum ContentPatchV {
    Cfg(CfgPatchView),
    Json(PatchV),
}

pub open spec fn content_patch_view(p: ConfigContentPatch) -> ContentPatchV {
    match p {
        ConfigContentPatch::Cfg(x) => ContentPatchV::Cfg(x@),
        ConfigContentPatch::Json(x) => ContentPatchV::Json(patch_view(x.value)),
    }
}

/// The change between contents of the same kind; none between contents of different kinds.
pub open spec fn content_diff(old: ContentV, new: ContentV) -> Option<ContentPatchV> {
    match (old, new) {
        (ContentV::Cfg(a), ContentV::Cfg(b)) => Some(ContentPatchV::Cfg(cfg_patch_diff(a, b))),
        (ContentV::Json(a), ContentV::Json(b)) => Some(ContentPatchV::Json(json_diff(a, b))),
        _ => None,
    }
}

pub open spec fn content_patch_is_empty(p: ContentPatchV) -> bool {
    match p {
        ContentPatchV::Cfg(c) => cfg_patch_is_empty(c),
        ContentPatchV::Json(j) => patch_is_empty(j),
    }
}

/// Why the general configuration cannot be diffed: a file's new content is of another kind than
/// its existing content.
pub enum GeneralError {
    ContentTypeMismatch(ConfigId),
}

impl ConfigContentPatch {
    pub fn diff(old: ConfigContent, new: ConfigContent) -> (r: Option<Self>)
        ensures
            match r {
                Some(p) => content_diff(content_view(old), content_view(new)) == Some(
                    content_patch_view(p),
                ),
                None => content_diff(content_view(old), content_view(new)) is None,
            },
    {
        match (old, new) {
            (ConfigContent::Cfg(o), ConfigContent::Cfg(n)) => Some(
                ConfigContentPatch::Cfg(CfgPatch::diff(o, n)),
            ),
            (ConfigContent::Json(o), ConfigContent::Json(n)) => Some(
                ConfigContentPatch::Json(JsonPatch::diff(o, n)),
            ),
            _ => None,
        }
    }

    pub fn is_empty(&self) -> (r: bool)
        ensures
            r == content_patch_is_empty(content_patch_view(*self)),
    {
        match self {
            ConfigContentPatch::Cfg(p) => p.is_empty(),
            ConfigContentPatch::Json(p) => p.is_empty(),
        }
    }
}

/// The change of a configuration file.
pub struct ConfigPatch {
    pub id: ConfigId,
    pub content: ConfigContentPatch,
}

/// What the change of a configuration file denotes.
pub struct ConfigPatchV {
    pub id: Seq<char>,
    pub content: ContentPatchV,
}

pub open spec fn config_patch_view(p: ConfigPatch) -> ConfigPatchV {
    ConfigPatchV { id: p.id@, content: content_patch_view(p.content) }
}

impl ConfigPatch {
    pub fn diff(old: Config, new: Config) -> (r: Option<Self>)
        ensures
            match r {
                Some(p) => content_diff(content_view(old.content), content_view(new.content))
                    == Some(content_patch_view(p.content)) && p.id@ == old.id@,
                None => content_diff(content_view(old.content), content_view(new.content)) is None,
            },
    {
        match ConfigContentPatch::diff(old.content, new.content) {
            Some(content) => Some(ConfigPatch { id: old.id, content }),
            None => None,
        }
    }

    pub fn is_empty(&self) -> (r: bool)
        ensures
            r == content_patch_is_empty(content_patch_view(self.content)),
    {
        self.content.is_empty()
    }
}

/// Whether two contents are of the same kind.
pub open spec fn same_kind(a: ConfigContent, b: ConfigContent) -> bool {
    (a is Cfg && b is Cfg) || (a is Json && b is Json)
}

/// The key of the first file of `s` whose content kind differs from the one `old` has.
pub open spec fn first_mismatch(s: Seq<(ConfigId, Config)>, old: Map<Seq<char>, Config>) -> Option<Seq<char>>
    decreases s.len(),
{
    if s.len() == 0 {
        None
    } else if old.contains_key(s[0].0@) && !same_kind(old[s[0].0@].content, s[0].1.content) {
        Some(s[0].0@)
    } else {
        first_mismatch(s.drop_first(), old)
    }
}

/// The files of `s`, in order, whose keys `old` lacks.
pub open spec fn added_configs(s: Seq<(ConfigId, Config)>, old: Map<Seq<char>, Config>) -> Seq<Config>
    decreases s.len(),
{
    if s.len() == 0 {
        Seq::empty()
    } else if old.contains_key(s[0].0@) {
        added_configs(s.drop_first(), old)
    } else {
        seq![s[0].1] + added_configs(s.drop_first(), old)
    }
}

/// The change of a file at `k` present in both, if it changes something.
pub open spec fn config_change(old: Map<Seq<char>, Config>, new: Map<Seq<char>, Config>, k: Seq<char>) -> Option<ConfigPatchV> {
    if old.contains_key(k) && new.contains_key(k) {
        match content_diff(content_view(old[k].content), content_view(new[k].content)) {
            Some(c) => if content_patch_is_empty(c) {
                None
            } else {
                Some(ConfigPatchV { id: old[k].id@, content: c })
            },
            None => None,
        }
    } else {
        None
    }
}

/// The change of the configuration files.
pub struct ConfigsPatch {
    pub changed: OrdMap<ConfigId, ConfigPatch>,
    pub added: Vec<Config>,
}

impl ConfigsPatch {
    /// The change from `old` to `new`; files that `new` lacks are kept. Fails on the first file,
    /// in key order, whose new content is of another kind than its old content.
    #[verifier::spinoff_prover]
    pub fn diff(old: Configs, new: Configs) -> (r: Result<Self, GeneralError>)
        ensures
            match r {
                Ok(p) => first_mismatch(new.0.0.seq(), old.0.0@) is None && (forall|k: Seq<char>|
                    #[trigger] config_change(old.0.0@, new.0.0@, k) == if p.changed@.contains_key(k) {
                        Some(config_patch_view(p.changed@[k]))
                    } else {
                        None
                    }) && p.added@ == added_configs(new.0.0.seq(), old.0.0@),
                Err(GeneralError::ContentTypeMismatch(id)) => first_mismatch(
                    new.0.0.seq(),
                    old.0.0@,
                ) == Some(id@),
            },
    {
        let ghost o0 = old.0.0@;
        let ghost n0 = new.0.0;
        let ghost ns = n0.seq();
        proof {
            use_type_invariant(&new.0.0);
            new.0.0.lemma_inv();
        }
        let n = new.0.0.len();
        let mut i: usize = 0;
        proof {
            assert(ns.skip(0) =~= ns);
        }
        while i < n
            invariant
                n == ns.len(),
                ns == new.0.0.seq(),
                o0 == old.0.0@,
                i <= n,
                first_mismatch(ns, o0) == first_mismatch(ns.skip(i as int), o0),
            decreases n - i,
        {
            let e = new.0.0.entry_at(i);
            proof {
                assert(ns.skip(i as int)[0] == ns[i as int]);
                assert(ns.skip(i as int).drop_first() =~= ns.skip(i + 1));
            }
            match old.0.0.get(&e.0) {
                Some(oc) => {
                    let same = match (&oc.content, &e.1.content) {
                        (ConfigContent::Cfg(_), ConfigContent::Cfg(_)) => true,
                        (ConfigContent::Json(_), ConfigContent::Json(_)) => true,
                        _ => false,
                    };
                    if !same {
                        return Err(GeneralError::ContentTypeMismatch(e.0.clone_key()));
                    }
                },
                None => {},
            }
            i = i + 1;
        }
        proof {
            assert(ns.skip(n as int) =~= Seq::<(ConfigId, Config)>::empty());
        }
        let mut remaining = old.0.0;
        let mut pending = new.0.0;
        let mut changed: OrdMap<ConfigId, ConfigPatch> = OrdMap::new();
        let mut added: Vec<Config> = Vec::new();
        proof {
            pending.lemma_finite();
            assert(ns.subrange(ns.len() as int, ns.len() as int) =~= Seq::<(ConfigId, Config)>::empty());
        }
        while !pending.is_empty()
            invariant
                ns == n0.seq(),
                first_mismatch(ns, o0) is None,
                forall|j: int| 0 <= j < ns.len() ==> n0@.contains_key(#[trigger] ns[j].0@) && n0@[ns[j].0@] == ns[j].1,
                pending.seq().len() <= ns.len(),
                pending.seq() == ns.subrange(0, pending.seq().len() as int),
                pending@.submap_of(n0@),
                pending@.dom().finite(),
                remaining@ == o0.remove_keys(n0@.dom() - pending@.dom()),
                forall|k: Seq<char>|
                    #[trigger] changed@.contains_key(k) == ((n0@.dom() - pending@.dom()).contains(k)
                        && config_change(o0, n0@, k) is Some),
                forall|k: Seq<char>|
                    #[trigger] changed@.contains_key(k) ==> config_change(o0, n0@, k) == Some(
                        config_patch_view(changed@[k]),
                    ),
                added@ == added_configs(ns.subrange(pending.seq().len() as int, ns.len() as int), o0),
            decreases pending.seq().len(),
        {
            let ghost prev_pending = pending;
            let ghost prev_remaining = remaining@;
            let ghost prev_added = added@;
            let (key, new_value) = pending.pop_last().unwrap();
            let ghost kv = key@;
            let ghost i = prev_pending.seq().len() - 1;
            proof {
                pending.lemma_finite();
                assert(prev_pending.seq()[i] == ns[i]);
                assert(pending.seq() =~= ns.subrange(0, pending.seq().len() as int));
                assert(prev_pending@.contains_key(kv) && prev_pending@[kv] == new_value);
                crate::maps::lemma_submap_at(prev_pending@, n0@, kv);
                assert(pending@ =~= prev_pending@.remove(kv));
                assert(pending@.submap_of(n0@));
                assert(!(n0@.dom() - prev_pending@.dom()).contains(kv));
                assert(prev_remaining.contains_key(kv) == o0.contains_key(kv));
                let rest = ns.subrange(i + 1, ns.len() as int);
                assert(ns.subrange(i, ns.len() as int).drop_first() =~= rest);
                assert(ns.subrange(i, ns.len() as int)[0] == (key, new_value));
                lemma_first_mismatch_none(ns, o0, i);
            }
            match remaining.remove(&key) {
                Some(old_value) => {
                    proof {
                        assert(old_value == o0[kv]);
                        assert(same_kind(old_value.content, new_value.content));
                    }
                    match ConfigPatch::diff(old_value, new_value) {
                        Some(patch) => {
                            if !patch.is_empty() {
                                changed.insert(key, patch);
                            }
                        },
                        None => {
                            proof {
                                assert(false);
                            }
                        },
                    }
                },
                None => {
                    added.insert(0, new_value);
                    proof {
                        assert(added@ =~= seq![new_value] + prev_added);
                    }
                },
            }
            proof {
                assert(remaining@ =~= o0.remove_keys(n0@.dom() - pending@.dom()));
            }
        }
        proof {
            assert(pending@ =~= Map::<Seq<char>, Config>::empty());
            assert(ns.subrange(0, ns.len() as int) =~= ns);
        }
        Ok(ConfigsPatch { changed, added })
    }

    pub fn is_empty(&self) -> (r: bool)
        ensures
            r == (self.changed@ == Map::<Seq<char>, ConfigPatch>::empty() && self.added@.len() == 0),
    {
        self.changed.is_empty() && self.added.len() == 0
    }
}

proof fn lemma_first_mismatch_none(s: Seq<(ConfigId, Config)>, old: Map<Seq<char>, Config>, i: int)
    requires
        first_mismatch(s, old) is None,
        0 <= i < s.len(),
    ensures
        old.contains_key(s[i].0@) ==> same_kind(old[s[i].0@].content, s[i].1.content),
    decreases i,
{
    if i > 0 {
        assert(s.drop_first()[i - 1] == s[i]);
        lemma_first_mismatch_none(s.drop_first(), old, i - 1);
    }
}

/// The change of the general configuration.
pub struct GeneralPatch {
    pub configs: ConfigsPatch,
}

/// `p` is the change that a successful diff makes of `old` and `new`.
pub open spec fn general_made_of(p: GeneralPatch, old: General, new: General) -> bool {
    &&& forall|k: Seq<char>|
        #[trigger] config_change(old.configs.0.0@, new.configs.0.0@, k) == if p.configs.changed@.contains_key(k) {
            Some(config_patch_view(p.configs.changed@[k]))
        } else {
            None
        }
    &&& p.configs.added@ == added_configs(new.configs.0.0.seq(), old.configs.0.0@)
}

/// The key of the first file, in key order, whose content kind changes from `old` to `new`.
pub open spec fn general_mismatch(old: General, new: General) -> Option<Seq<char>> {
    first_mismatch(new.configs.0.0.seq(), old.configs.0.0@)
}

impl GeneralPatch {
    pub fn diff(old: General, new: General) -> (r: Result<Self, GeneralError>)
        ensures
            match r {
                Ok(p) => general_mismatch(old, new) is None && general_made_of(p, old, new),
                Err(GeneralError::ContentTypeMismatch(id)) => general_mismatch(old, new) == Some(id@),
            },
    {
        let ghost o = old;
        let ghost n = new;
        match ConfigsPatch::diff(old.configs, new.configs) {
            Ok(configs) => {
                let r = GeneralPatch { configs };
                proof {
                    assert(general_made_of(r, o, n));
                }
                Ok(r)
            },
            Err(e) => Err(e),
        }
    }

    pub fn is_empty(&self) -> (r: bool)
        ensures
            r == (self.configs.changed@ == Map::<Seq<char>, ConfigPatch>::empty()
                && self.configs.added@.len() == 0),
    {
        self.configs.is_empty()
    }
}

proof fn lemma_first_mismatch_self(s: Seq<(ConfigId, Config)>, m: Map<Seq<char>, Config>)
    requires
        forall|i: int|
            0 <= i < s.len() ==> m.contains_key(#[trigger] s[i].0@) && m[s[i].0@] == s[i].1,
    ensures
        first_mismatch(s, m) is None,
        added_configs(s, m).len() == 0,
    decreases s.len(),
{
    if s.len() > 0 {
        let t = s.drop_first();
        assert forall|i: int| 0 <= i < t.len() implies m.contains_key(#[trigger] t[i].0@) && m[t[i].0@]
            == t[i].1 by {
            assert(t[i] == s[i + 1]);
        }
        assert(m.contains_key(s[0].0@));
        lemma_first_mismatch_self(t, m);
    }
}

/// A file's content diffed against itself changes nothing.
pub proof fn lemma_config_change_self(m: Map<Seq<char>, Config>, k: Seq<char>)
    ensures
        config_change(m, m, k) is None,
{
    if m.contains_key(k) {
        match m[k].content {
            ConfigContent::Cfg(c) => crate::cfg::lemma_cfg_diff_self(c@),
            ConfigContent::Json(j) => crate::json::lemma_json_diff_self(json_view(j.0)),
        }
    }
}

/// Diffing the general configuration against itself succeeds, and the change is empty: no file
/// changes and none is added.
pub proof fn lemma_general_diff_self(g: General, p: GeneralPatch)
    requires
        g.configs.0.0.inv(),
        general_made_of(p, g, g),
    ensures
        general_mismatch(g, g) is None,
        p.configs.changed@ == Map::<Seq<char>, ConfigPatch>::empty(),
        p.configs.added@.len() == 0,
{
    let m = g.configs.0.0;
    m.lemma_inv();
    lemma_first_mismatch_self(m.seq(), m@);
    assert forall|k: Seq<char>| !#[trigger] p.configs.changed@.contains_key(k) by {
        lemma_config_change_self(m@, k);
    }
    assert(p.configs.changed@ =~= Map::<Seq<char>, ConfigPatch>::empty());
}

/// Diffing the general configuration from `old` to `new` (a successful diff) records the change of
/// every file kept in both whose content `new` changes: the patch, applied to the old content,
/// gives the new content laid over the old one. A file whose old content already holds the new
/// one gets no patch.
pub proof fn lemma_general_diff_records_change(old: General, new: General, p: GeneralPatch, k: Seq<char>)
    requires
        general_made_of(p, old, new),
        old.configs.0.0@.contains_key(k),
        new.configs.0.0@.contains_key(k),
    ensures
        match (content_view(old.configs.0.0@[k].content), content_view(new.configs.0.0@[k].content)) {
            (ContentV::Cfg(a), ContentV::Cfg(b)) => if crate::cfg::cfg_covers(a, b) {
                !p.configs.changed@.contains_key(k)
            } else {
                &&& p.configs.changed@.contains_key(k)
                &&& config_patch_view(p.configs.changed@[k]).content == ContentPatchV::Cfg(cfg_patch_diff(a, b))
                &&& crate::cfg::cfg_patch_apply(cfg_patch_diff(a, b), a) == crate::cfg::merge_cfg(a, b)
            },
            (ContentV::Json(a), ContentV::Json(b)) => if crate::json::json_merge(a, b) == a {
                !p.configs.changed@.contains_key(k)
            } else {
                &&& p.configs.changed@.contains_key(k)
                &&& config_patch_view(p.configs.changed@[k]).content == ContentPatchV::Json(json_diff(a, b))
                &&& crate::json::json_apply(json_diff(a, b), a) == crate::json::json_merge(a, b)
            },
            _ => !p.configs.changed@.contains_key(k),
        },
{
    let o = old.configs.0.0@;
    let n = new.configs.0.0@;
    assert(config_change(o, n, k) == if p.configs.changed@.contains_key(k) {
        Some(config_patch_view(p.configs.changed@[k]))
    } else {
        None
    });
    match (content_view(o[k].content), content_view(n[k].content)) {
        (ContentV::Cfg(a), ContentV::Cfg(b)) => {
            crate::cfg::lemma_cfg_diff_empty(a, b);
            crate::cfg::lemma_cfg_apply_diff(a, b);
        },
        (ContentV::Json(a), ContentV::Json(b)) => {
            crate::json::lemma_json_diff_empty(a, b);
            crate::json::lemma_json_apply_diff(a, b);
        },
        _ => {},
    }
}

} // verus!
