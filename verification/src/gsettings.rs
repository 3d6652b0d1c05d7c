use crate::cfg::{str_map_view, StrMap};
use crate::ordmap::{has_key, OrdMap};
use crate::serde::{Id, IdMap};
use vstd::prelude::*;

verus! {

/// A settings schema and its values, each value as the text GLib prints for it with its type.
pub struct Schema {
    pub id: String,
    pub values: OrdMap<String, String>,
}

impl Id for Schema {
    type Id = String;

    open spec fn spec_id(&self) -> Seq<char> {
        self.id@
    }

    fn id(&self) -> (r: &String) {
        &self.id
    }
}

/// The schemas, keyed by id.
pub struct Schemas(pub IdMap<Schema>);

/// The GSettings configuration.
pub struct GSettings {
    pub schemas: Schemas,
}

impl GSettings {
    pub fn is_empty(&self) -> (r: bool)
        ensures
            r == (self.schemas.0.0@ == Map::<Seq<char>, Schema>::empty()),
    {
        self.schemas.0.is_empty()
    }
}

/// The change of a schema's values: new values of keys it has, and keys it lacks.
pub struct SchemaPatch {
    pub changed: OrdMap<String, String>,
    pub added: OrdMap<String, String>,
}

/// The values of keys that both have and that differ, taken from `new`.
pub open spec fn changed_values(old: StrMap, new: StrMap) -> StrMap {
    Map::new(
        |k: Seq<char>| old.contains_key(k) && new.contains_key(k) && old[k] != new[k],
        |k: Seq<char>| new[k],
    )
}

impl SchemaPatch {
    /// The change from `old` to `new` values; keys that `new` lacks are kept.
    #[verifier::spinoff_prover]
    pub fn diff(old: Schema, new: Schema) -> (r: Self)
        ensures
            str_map_view(r.changed@) == changed_values(str_map_view(old.values@), str_map_view(new.values@)),
            str_map_view(r.added@) == str_map_view(new.values@).remove_keys(old.values@.dom()),
    {
        let ghost o0 = str_map_view(old.values@);
        let ghost n0 = str_map_view(new.values@);
        let ghost od = old.values@.dom();
        let mut remaining = old.values;
        let mut pending = new.values;
        let mut changed: OrdMap<String, String> = OrdMap::new();
        let mut added: OrdMap<String, String> = OrdMap::new();
        proof {
            pending.lemma_finite();
            assert(str_map_view(changed@) =~= changed_values(o0, n0).remove_keys(pending@.dom()));
            assert(str_map_view(added@) =~= n0.remove_keys(od).remove_keys(pending@.dom()));
        }
        while !pending.is_empty()
            invariant
                str_map_view(pending@).submap_of(n0),
                pending@.dom().finite(),
                od == o0.dom(),
                str_map_view(remaining@) == o0.remove_keys(n0.dom() - pending@.dom()),
                str_map_view(changed@) == changed_values(o0, n0).remove_keys(pending@.dom()),
                str_map_view(added@) == n0.remove_keys(od).remove_keys(pending@.dom()),
            decreases pending@.len(),
        {
            let ghost prev_pending = pending@;
            let ghost prev_remaining = remaining@;
            let ghost prev_changed = changed@;
            let ghost prev_added = added@;
            let (key, new_value) = pending.pop_last().unwrap();
            let ghost kv = key@;
            proof {
                pending.lemma_finite();
                assert(str_map_view(prev_pending).contains_key(kv));
                assert(str_map_view(prev_pending)[kv] == new_value@);
                crate::maps::lemma_submap_at(str_map_view(prev_pending), n0, kv);
                assert(pending@.dom() =~= prev_pending.dom().remove(kv));
                assert(str_map_view(pending@) =~= str_map_view(prev_pending).remove(kv));
                assert(!(n0.dom() - prev_pending.dom()).contains(kv));
                assert(str_map_view(prev_remaining).contains_key(kv) == o0.contains_key(kv));
                if o0.contains_key(kv) {
                    assert(str_map_view(prev_remaining)[kv] == o0[kv]);
                }
            }
            match remaining.remove(&key) {
                Some(old_value) => {
                    if !crate::text::str_eq(old_value.as_str(), new_value.as_str()) {
                        let ghost nv = new_value;
                        changed.insert(key, new_value);
                        proof {
                            crate::maps::lemma_map_values_insert(prev_changed, kv, nv, |v: String| v@);
                        }
                    }
                    proof {
                        crate::maps::lemma_map_values_remove(prev_remaining, kv, |v: String| v@);
                    }
                },
                None => {
                    let ghost nv = new_value;
                    added.insert(key, new_value);
                    proof {
                        crate::maps::lemma_map_values_insert(prev_added, kv, nv, |v: String| v@);
                        assert(remaining@ =~= prev_remaining);
                    }
                },
            }
            proof {
                assert(str_map_view(remaining@) =~= o0.remove_keys(n0.dom() - pending@.dom()));
                assert(str_map_view(changed@) =~= changed_values(o0, n0).remove_keys(pending@.dom()));
                assert(str_map_view(added@) =~= n0.remove_keys(od).remove_keys(pending@.dom()));
            }
        }
        proof {
            assert(changed_values(o0, n0).remove_keys(pending@.dom()) =~= changed_values(o0, n0));
            assert(n0.remove_keys(od).remove_keys(pending@.dom()) =~= n0.remove_keys(od));
        }
        SchemaPatch { changed, added }
    }

    pub fn is_empty(&self) -> (r: bool)
        ensures
            r == (self.changed@ == Map::<Seq<char>, String>::empty() && self.added@ == Map::<
                Seq<char>,
                String,
            >::empty()),
    {
        self.changed.is_empty() && self.added.is_empty()
    }
}

/// The change of the schemas: value changes of schemas both have; schemas only in `new` are not
/// loaded and so not recorded.
pub struct SchemasPatch {
    pub changed: OrdMap<String, SchemaPatch>,
}

/// The change of the GSettings configuration.
pub struct GSettingsPatch {
    pub schemas: SchemasPatch,
}

/// The values set when applying a change: the schema, the key, and the value's text.
pub struct GSettingsSet {
    pub schema: String,
    pub key: String,
    pub value: String,
}

impl SchemasPatch {
    /// The change from `old` to `new`: each schema of both with a non-empty change is recorded.
    pub fn diff(old: Schemas, new: Schemas) -> (r: Self)
        ensures
            forall|k: Seq<char>|
                #[trigger] r.changed@.contains_key(k) ==> old.0.0@.contains_key(k) && new.0.0@.contains_key(k)
                    && str_map_view(r.changed@[k].changed@) == changed_values(
                    str_map_view(old.0.0@[k].values@),
                    str_map_view(new.0.0@[k].values@),
                ) && str_map_view(r.changed@[k].added@) == str_map_view(
                    new.0.0@[k].values@,
                ).remove_keys(old.0.0@[k].values@.dom()),
            forall|k: Seq<char>|
                old.0.0@.contains_key(k) && new.0.0@.contains_key(k) && !(#[trigger] r.changed@.contains_key(k))
                    ==> changed_values(
                    str_map_view(old.0.0@[k].values@),
                    str_map_view(new.0.0@[k].values@),
                ).dom().is_empty() && str_map_view(new.0.0@[k].values@).remove_keys(
                    old.0.0@[k].values@.dom(),
                ).dom().is_empty(),
            forall|k: Seq<char>| #[trigger] r.changed@.contains_key(k) ==> new.0.0@.contains_key(k),
    {
        let ghost o0 = old.0.0@;
        let ghost n0 = new.0.0@;
        let mut remaining = old.0.0;
        let mut pending = new.0.0;
        let mut changed: OrdMap<String, SchemaPatch> = OrdMap::new();
        proof {
            pending.lemma_finite();
        }
        while !pending.is_empty()
            invariant
                pending@.submap_of(n0),
                pending@.dom().finite(),
                remaining@ == o0.remove_keys(n0.dom() - pending@.dom()),
                forall|k: Seq<char>|
                    #[trigger] changed@.contains_key(k) ==> (n0.dom() - pending@.dom()).contains(k)
                        && o0.contains_key(k) && n0.contains_key(k) && str_map_view(
                        changed@[k].changed@,
                    ) == changed_values(str_map_view(o0[k].values@), str_map_view(n0[k].values@))
                        && str_map_view(changed@[k].added@) == str_map_view(
                        n0[k].values@,
                    ).remove_keys(o0[k].values@.dom()),
                forall|k: Seq<char>|
                    (n0.dom() - pending@.dom()).contains(k) && o0.contains_key(k) && !(
                    #[trigger] changed@.contains_key(k)) ==> changed_values(
                        str_map_view(o0[k].values@),
                        str_map_view(n0[k].values@),
                    ).dom().is_empty() && str_map_view(n0[k].values@).remove_keys(
                        o0[k].values@.dom(),
                    ).dom().is_empty(),
            decreases pending@.len(),
        {
            let ghost prev_pending = pending@;
            let ghost prev_remaining = remaining@;
            let (key, new_value) = pending.pop_last().unwrap();
            let ghost kv = key@;
            proof {
                pending.lemma_finite();
                assert(prev_pending.contains_key(kv) && prev_pending[kv] == new_value);
                crate::maps::lemma_submap_at(prev_pending, n0, kv);
                assert(pending@ =~= prev_pending.remove(kv));
                assert(!(n0.dom() - prev_pending.dom()).contains(kv));
                assert(prev_remaining.contains_key(kv) == o0.contains_key(kv));
            }
            match remaining.remove(&key) {
                Some(old_value) => {
                    proof {
                        assert(old_value == o0[kv]);
                    }
                    let patch = SchemaPatch::diff(old_value, new_value);
                    if !patch.is_empty() {
                        changed.insert(key, patch);
                    } else {
                        proof {
                            assert(str_map_view(patch.changed@) =~= Map::<Seq<char>, Seq<char>>::empty());
                            assert(str_map_view(patch.added@) =~= Map::<Seq<char>, Seq<char>>::empty());
                        }
                    }
                },
                None => {},
            }
            proof {
                assert(remaining@ =~= o0.remove_keys(n0.dom() - pending@.dom()));
            }
        }
        proof {
            assert(pending@ =~= Map::<Seq<char>, Schema>::empty());
        }
        SchemasPatch { changed }
    }
}

impl GSettingsPatch {
    pub fn diff(old: GSettings, new: GSettings) -> (r: Self)
        ensures
            forall|k: Seq<char>|
                #[trigger] r.schemas.changed@.contains_key(k) ==> old.schemas.0.0@.contains_key(k)
                    && new.schemas.0.0@.contains_key(k) && str_map_view(
                    r.schemas.changed@[k].changed@,
                ) == changed_values(
                    str_map_view(old.schemas.0.0@[k].values@),
                    str_map_view(new.schemas.0.0@[k].values@),
                ) && str_map_view(r.schemas.changed@[k].added@) == str_map_view(
                    new.schemas.0.0@[k].values@,
                ).remove_keys(old.schemas.0.0@[k].values@.dom()),
            forall|k: Seq<char>|
                old.schemas.0.0@.contains_key(k) && new.schemas.0.0@.contains_key(k) && !(
                #[trigger] r.schemas.changed@.contains_key(k)) ==> changed_values(
                    str_map_view(old.schemas.0.0@[k].values@),
                    str_map_view(new.schemas.0.0@[k].values@),
                ).dom().is_empty() && str_map_view(new.schemas.0.0@[k].values@).remove_keys(
                    old.schemas.0.0@[k].values@.dom(),
                ).dom().is_empty(),
    {
        GSettingsPatch { schemas: SchemasPatch::diff(old.schemas, new.schemas) }
    }

    pub fn is_empty(&self) -> (r: bool)
        ensures
            r == (self.schemas.changed@ == Map::<Seq<char>, SchemaPatch>::empty()),
    {
        self.schemas.changed.is_empty()
    }

    /// The values to set, in order: schemas by id, and in each the changed keys, then the added
    /// keys, each by key.
    pub fn plan(self) -> (r: Vec<GSettingsSet>)
        ensures
            r@.map_values(|s: GSettingsSet| (s.schema@, s.key@, s.value@)) == gsettings_sets(
                self.schemas.changed.seq(),
            ),
    {
        let ghost all = self.schemas.changed.seq();
        let mut entries = self.schemas.changed.into_entries();
        let mut r: Vec<GSettingsSet> = Vec::new();
        proof {
            assert(r@.map_values(|s: GSettingsSet| (s.schema@, s.key@, s.value@)) =~= Seq::<
                (Seq<char>, Seq<char>, Seq<char>),
            >::empty());
        }
        while entries.len() > 0
            invariant
                gsettings_sets(all) == r@.map_values(|s: GSettingsSet| (s.schema@, s.key@, s.value@))
                    + gsettings_sets(entries@),
            decreases entries.len(),
        {
            let ghost prev = entries@;
            let ghost before = r@.map_values(|s: GSettingsSet| (s.schema@, s.key@, s.value@));
            let (id, patch) = entries.remove(0);
            proof {
                assert(prev.drop_first() =~= entries@);
            }
            let ghost cs = patch.changed.seq();
            let ghost ads = patch.added.seq();
            let mut values = patch.changed.into_entries();
            let mut added = patch.added.into_entries();
            while values.len() > 0
                invariant
                    before + schema_sets(id@, cs) + schema_sets(id@, ads) == r@.map_values(
                        |s: GSettingsSet| (s.schema@, s.key@, s.value@),
                    ) + schema_sets(id@, values@) + schema_sets(id@, ads),
                    added@ == ads,
                decreases values.len(),
            {
                let ghost pv = values@;
                let ghost pr = r@;
                let (key, value) = values.remove(0);
                r.push(GSettingsSet { schema: id.clone(), key, value });
                proof {
                    assert(pv.drop_first() =~= values@);
                    assert(r@.map_values(|s: GSettingsSet| (s.schema@, s.key@, s.value@)) =~= pr.map_values(
                        |s: GSettingsSet| (s.schema@, s.key@, s.value@),
                    ).push((id@, pv[0].0@, pv[0].1@)));
                }
            }
            while added.len() > 0
                invariant
                    before + schema_sets(id@, cs) + schema_sets(id@, ads) == r@.map_values(
                        |s: GSettingsSet| (s.schema@, s.key@, s.value@),
                    ) + schema_sets(id@, added@),
                decreases added.len(),
            {
                let ghost pv = added@;
                let ghost pr = r@;
                let (key, value) = added.remove(0);
                r.push(GSettingsSet { schema: id.clone(), key, value });
                proof {
                    assert(pv.drop_first() =~= added@);
                    assert(r@.map_values(|s: GSettingsSet| (s.schema@, s.key@, s.value@)) =~= pr.map_values(
                        |s: GSettingsSet| (s.schema@, s.key@, s.value@),
                    ).push((id@, pv[0].0@, pv[0].1@)));
                }
            }
            proof {
                assert(prev[0] == (id, patch));
                assert(gsettings_sets(prev) == schema_sets(id@, cs) + schema_sets(id@, ads)
                    + gsettings_sets(entries@));
            }
        }
        r
    }
}

/// The (schema, key, value) sets of a schema's entries, in order.
pub open spec fn schema_sets(id: Seq<char>, s: Seq<(String, String)>) -> Seq<(Seq<char>, Seq<char>, Seq<char>)>
    decreases s.len(),
{
    if s.len() == 0 {
        Seq::empty()
    } else {
        seq![(id, s[0].0@, s[0].1@)] + schema_sets(id, s.drop_first())
    }
}

/// The (schema, key, value) sets of schema changes, in order: changed keys, then added keys.
pub open spec fn gsettings_sets(s: Seq<(String, SchemaPatch)>) -> Seq<(Seq<char>, Seq<char>, Seq<char>)>
    decreases s.len(),
{
    if s.len() == 0 {
        Seq::empty()
    } else {
        schema_sets(s[0].0@, s[0].1.changed.seq()) + schema_sets(s[0].0@, s[0].1.added.seq())
            + gsettings_sets(s.drop_first())
    }
}

/// The values of schemas, by schema and key.
pub open spec fn schema_store(m: Map<Seq<char>, Schema>) -> Map<(Seq<char>, Seq<char>), Seq<char>> {
    Map::new(
        |x: (Seq<char>, Seq<char>)| m.contains_key(x.0) && m[x.0].values@.contains_key(x.1),
        |x: (Seq<char>, Seq<char>)| m[x.0].values@[x.1]@,
    )
}

/// The values of `old`, with the values of `new` laid over them in the schemas that both have.
pub open spec fn laid_over(old: Map<Seq<char>, Schema>, new: Map<Seq<char>, Schema>) -> Map<
    (Seq<char>, Seq<char>),
    Seq<char>,
> {
    Map::new(
        |x: (Seq<char>, Seq<char>)|
            schema_store(old).contains_key(x) || (old.contains_key(x.0) && schema_store(new).contains_key(x)),
        |x: (Seq<char>, Seq<char>)|
            if old.contains_key(x.0) && schema_store(new).contains_key(x) {
                schema_store(new)[x]
            } else {
                schema_store(old)[x]
            },
    )
}

/// The values after the writes `sets`, in order, each giving its schema's key its value.
pub open spec fn write_sets(
    st: Map<(Seq<char>, Seq<char>), Seq<char>>,
    sets: Seq<(Seq<char>, Seq<char>, Seq<char>)>,
) -> Map<(Seq<char>, Seq<char>), Seq<char>>
    decreases sets.len(),
{
    if sets.len() == 0 {
        st
    } else {
        write_sets(st.insert((sets[0].0, sets[0].1), sets[0].2), sets.drop_first())
    }
}

/// Some write of `sets` is to the schema and key `x`.
pub open spec fn written(sets: Seq<(Seq<char>, Seq<char>, Seq<char>)>, x: (Seq<char>, Seq<char>)) -> bool {
    exists|i: int| 0 <= i < sets.len() && (#[trigger] sets[i]).0 == x.0 && sets[i].1 == x.1
}

/// What `SchemasPatch::diff` says of a change from `old` to `new`.
pub open spec fn schemas_patch_of(p: SchemasPatch, old: Map<Seq<char>, Schema>, new: Map<Seq<char>, Schema>) -> bool {
    &&& forall|k: Seq<char>|
        #[trigger] p.changed@.contains_key(k) ==> old.contains_key(k) && new.contains_key(k) && str_map_view(
            p.changed@[k].changed@,
        ) == changed_values(str_map_view(old[k].values@), str_map_view(new[k].values@)) && str_map_view(
            p.changed@[k].added@,
        ) == str_map_view(new[k].values@).remove_keys(old[k].values@.dom())
    &&& forall|k: Seq<char>|
        old.contains_key(k) && new.contains_key(k) && !(#[trigger] p.changed@.contains_key(k)) ==> changed_values(
            str_map_view(old[k].values@),
            str_map_view(new[k].values@),
        ).dom().is_empty() && str_map_view(new[k].values@).remove_keys(old[k].values@.dom()).dom().is_empty()
}

proof fn lemma_write_sets(
    st: Map<(Seq<char>, Seq<char>), Seq<char>>,
    sets: Seq<(Seq<char>, Seq<char>, Seq<char>)>,
    target: Map<(Seq<char>, Seq<char>), Seq<char>>,
)
    requires
        forall|i: int|
            0 <= i < sets.len() ==> target.contains_key(((#[trigger] sets[i]).0, sets[i].1)) && target[(
                sets[i].0,
                sets[i].1,
            )] == sets[i].2,
    ensures
        forall|x: (Seq<char>, Seq<char>)|
            #[trigger] write_sets(st, sets).contains_key(x) == (st.contains_key(x) || written(sets, x)),
        forall|x: (Seq<char>, Seq<char>)|
            #[trigger] write_sets(st, sets).contains_key(x) ==> write_sets(st, sets)[x] == if written(
                sets,
                x,
            ) {
                target[x]
            } else {
                st[x]
            },
    decreases sets.len(),
{
    if sets.len() > 0 {
        let rest = sets.drop_first();
        let st2 = st.insert((sets[0].0, sets[0].1), sets[0].2);
        assert forall|i: int| 0 <= i < rest.len() implies target.contains_key(((#[trigger] rest[i]).0, rest[i].1))
            && target[(rest[i].0, rest[i].1)] == rest[i].2 by {
            assert(rest[i] == sets[i + 1]);
        }
        lemma_write_sets(st2, rest, target);
        assert forall|x: (Seq<char>, Seq<char>)| written(sets, x) <==> (written(rest, x) || (sets[0].0 == x.0
            && sets[0].1 == x.1)) by {
            if written(sets, x) {
                let i = choose|i: int| 0 <= i < sets.len() && (#[trigger] sets[i]).0 == x.0 && sets[i].1 == x.1;
                if i > 0 {
                    assert(rest[i - 1] == sets[i]);
                }
            }
            if written(rest, x) {
                let i = choose|i: int| 0 <= i < rest.len() && (#[trigger] rest[i]).0 == x.0 && rest[i].1 == x.1;
                assert(sets[i + 1] == rest[i]);
            }
            if sets[0].0 == x.0 && sets[0].1 == x.1 {
                assert(sets[0].0 == x.0);
            }
        }
        assert(target[(sets[0].0, sets[0].1)] == sets[0].2);
        assert(write_sets(st, sets) == write_sets(st2, rest));
        assert forall|x: (Seq<char>, Seq<char>)| #[trigger] write_sets(st, sets).contains_key(x) == (st.contains_key(x)
            || written(sets, x)) && (write_sets(st, sets).contains_key(x) ==> write_sets(st, sets)[x] == if written(
            sets,
            x,
        ) {
            target[x]
        } else {
            st[x]
        }) by {
            assert(write_sets(st2, rest).contains_key(x) == (st2.contains_key(x) || written(rest, x)));
            if x == (sets[0].0, sets[0].1) {
                assert(st2[x] == sets[0].2);
            }
        }
    } else {
        assert forall|x: (Seq<char>, Seq<char>)| !written(sets, x) by {}
    }
}

proof fn lemma_schema_sets(id: Seq<char>, s: Seq<(String, String)>)
    ensures
        schema_sets(id, s).len() == s.len(),
        forall|i: int| 0 <= i < s.len() ==> #[trigger] schema_sets(id, s)[i] == (id, s[i].0@, s[i].1@),
    decreases s.len(),
{
    if s.len() > 0 {
        lemma_schema_sets(id, s.drop_first());
        assert forall|i: int| 0 <= i < s.len() implies #[trigger] schema_sets(id, s)[i] == (id, s[i].0@, s[i].1@) by {
            if i > 0 {
                assert(s.drop_first()[i - 1] == s[i]);
            }
        }
    }
}

/// The writes of a schema's entries are to that schema, and to exactly the keys of the map, each
/// with the map's value.
proof fn lemma_schema_sets_map(id: Seq<char>, m: OrdMap<String, String>)
    requires
        m.inv(),
    ensures
        forall|i: int|
            0 <= i < schema_sets(id, m.seq()).len() ==> (#[trigger] schema_sets(id, m.seq())[i]).0 == id
                && str_map_view(m@).contains_key(schema_sets(id, m.seq())[i].1) && str_map_view(m@)[schema_sets(
                id,
                m.seq(),
            )[i].1] == schema_sets(id, m.seq())[i].2,
        forall|k: Seq<char>| #[trigger] str_map_view(m@).contains_key(k) ==> written(schema_sets(id, m.seq()), (id, k)),
{
    m.lemma_inv();
    lemma_schema_sets(id, m.seq());
    let ss = schema_sets(id, m.seq());
    assert forall|i: int| 0 <= i < ss.len() implies (#[trigger] ss[i]).0 == id && str_map_view(m@).contains_key(ss[i].1)
        && str_map_view(m@)[ss[i].1] == ss[i].2 by {
        assert(ss[i] == (id, m.seq()[i].0@, m.seq()[i].1@));
        assert(m@.contains_key(m.seq()[i].0@));
        assert(m@[m.seq()[i].0@] == m.seq()[i].1);
    }
    assert forall|k: Seq<char>| #[trigger] str_map_view(m@).contains_key(k) implies written(ss, (id, k)) by {
        assert(m@.contains_key(k));
        assert(has_key(m.seq(), k));
        let i = choose|i: int| 0 <= i < m.seq().len() && #[trigger] m.seq()[i].0@ == k;
        assert(ss[i] == (id, m.seq()[i].0@, m.seq()[i].1@));
    }
}

proof fn lemma_written_concat(
    a: Seq<(Seq<char>, Seq<char>, Seq<char>)>,
    b: Seq<(Seq<char>, Seq<char>, Seq<char>)>,
    x: (Seq<char>, Seq<char>),
)
    ensures
        written(a + b, x) <==> written(a, x) || written(b, x),
{
    if written(a + b, x) {
        let i = choose|i: int| 0 <= i < (a + b).len() && (#[trigger] (a + b)[i]).0 == x.0 && (a + b)[i].1 == x.1;
        if i >= a.len() {
            assert((a + b)[i] == b[i - a.len()]);
        } else {
            assert((a + b)[i] == a[i]);
        }
    }
    if written(a, x) {
        let i = choose|i: int| 0 <= i < a.len() && (#[trigger] a[i]).0 == x.0 && a[i].1 == x.1;
        assert((a + b)[i] == a[i]);
    }
    if written(b, x) {
        let i = choose|i: int| 0 <= i < b.len() && (#[trigger] b[i]).0 == x.0 && b[i].1 == x.1;
        assert((a + b)[i + a.len()] == b[i]);
    }
}

proof fn lemma_in_concat(
    a: Seq<(Seq<char>, Seq<char>, Seq<char>)>,
    b: Seq<(Seq<char>, Seq<char>, Seq<char>)>,
    i: int,
)
    requires
        0 <= i < (a + b).len(),
    ensures
        (i < a.len() && (a + b)[i] == a[i]) || (i >= a.len() && (a + b)[i] == b[i - a.len()]),
{
}

/// What the writes of schema changes are: each to a changed schema, to a changed or added key,
/// with that key's new value; and every such key is written.
proof fn lemma_gsettings_sets(s: Seq<(String, SchemaPatch)>, new: Map<Seq<char>, Schema>)
    requires
        forall|j: int|
            0 <= j < s.len() ==> (#[trigger] s[j]).1.changed.inv() && s[j].1.added.inv() && new.contains_key(
                s[j].0@,
            ) && str_map_view(s[j].1.changed@).submap_of(str_map_view(new[s[j].0@].values@))
                && str_map_view(s[j].1.added@).submap_of(str_map_view(new[s[j].0@].values@)),
    ensures
        forall|i: int|
            0 <= i < gsettings_sets(s).len() ==> schema_store(new).contains_key(
                ((#[trigger] gsettings_sets(s)[i]).0, gsettings_sets(s)[i].1),
            ) && schema_store(new)[(gsettings_sets(s)[i].0, gsettings_sets(s)[i].1)] == gsettings_sets(s)[i].2,
        forall|x: (Seq<char>, Seq<char>)|
            #[trigger] written(gsettings_sets(s), x) <==> exists|j: int|
                0 <= j < s.len() && (#[trigger] s[j]).0@ == x.0 && (str_map_view(s[j].1.changed@).contains_key(x.1)
                    || str_map_view(s[j].1.added@).contains_key(x.1)),
    decreases s.len(),
{
    if s.len() > 0 {
        let rest = s.drop_first();
        assert forall|j: int| 0 <= j < rest.len() implies (#[trigger] rest[j]).1.changed.inv() && rest[j].1.added.inv()
            && new.contains_key(rest[j].0@) && str_map_view(rest[j].1.changed@).submap_of(
            str_map_view(new[rest[j].0@].values@),
        ) && str_map_view(rest[j].1.added@).submap_of(str_map_view(new[rest[j].0@].values@)) by {
            assert(rest[j] == s[j + 1]);
        }
        lemma_gsettings_sets(rest, new);
        let id = s[0].0@;
        let c = schema_sets(id, s[0].1.changed.seq());
        let a = schema_sets(id, s[0].1.added.seq());
        let r = gsettings_sets(rest);
        assert(s[0].1.changed.inv());
        lemma_schema_sets_map(id, s[0].1.changed);
        lemma_schema_sets_map(id, s[0].1.added);
        let all = gsettings_sets(s);
        assert(all == c + a + r);
        let nv = str_map_view(new[id].values@);
        assert forall|i: int| 0 <= i < all.len() implies schema_store(new).contains_key(
            ((#[trigger] all[i]).0, all[i].1),
        ) && schema_store(new)[(all[i].0, all[i].1)] == all[i].2 by {
            lemma_in_concat(c + a, r, i);
            if i < (c + a).len() {
                lemma_in_concat(c, a, i);
                if i < c.len() {
                    assert(str_map_view(s[0].1.changed@).contains_key(c[i].1));
                    assert(nv.contains_key(c[i].1));
                } else {
                    let k = i - c.len();
                    assert(str_map_view(s[0].1.added@).contains_key(a[k].1));
                    assert(nv.contains_key(a[k].1));
                }
            }
        }
        assert forall|x: (Seq<char>, Seq<char>)| #[trigger] written(all, x) <==> exists|j: int|
            0 <= j < s.len() && (#[trigger] s[j]).0@ == x.0 && (str_map_view(s[j].1.changed@).contains_key(x.1)
                || str_map_view(s[j].1.added@).contains_key(x.1)) by {
            lemma_written_concat(c + a, r, x);
            lemma_written_concat(c, a, x);
            if written(c, x) {
                let i = choose|i: int| 0 <= i < c.len() && (#[trigger] c[i]).0 == x.0 && c[i].1 == x.1;
                assert(s[0].0@ == x.0);
            }
            if written(a, x) {
                let i = choose|i: int| 0 <= i < a.len() && (#[trigger] a[i]).0 == x.0 && a[i].1 == x.1;
                assert(s[0].0@ == x.0);
            }
            if written(r, x) {
                let j = choose|j: int|
                    0 <= j < rest.len() && (#[trigger] rest[j]).0@ == x.0 && (str_map_view(rest[j].1.changed@).contains_key(
                        x.1,
                    ) || str_map_view(rest[j].1.added@).contains_key(x.1));
                assert(s[j + 1] == rest[j]);
            }
            if exists|j: int|
                0 <= j < s.len() && (#[trigger] s[j]).0@ == x.0 && (str_map_view(s[j].1.changed@).contains_key(x.1)
                    || str_map_view(s[j].1.added@).contains_key(x.1)) {
                let j = choose|j: int|
                    0 <= j < s.len() && (#[trigger] s[j]).0@ == x.0 && (str_map_view(s[j].1.changed@).contains_key(x.1)
                        || str_map_view(s[j].1.added@).contains_key(x.1));
                if j == 0 {
                    if str_map_view(s[0].1.changed@).contains_key(x.1) {
                        assert(written(c, (id, x.1)));
                    } else {
                        assert(written(a, (id, x.1)));
                    }
                } else {
                    assert(rest[j - 1] == s[j]);
                }
            }
        }
    }
}

/// Writing the planned values of the change from `old` to `new`, each setting its schema's key,
/// over the values of `old` gives `old`'s values with `new`'s laid over them in the schemas that
/// both have: a key of `new` takes its value, and every other key keeps its own.
pub proof fn lemma_gsettings_plan_writes_new(
    old: Map<Seq<char>, Schema>,
    new: Map<Seq<char>, Schema>,
    p: SchemasPatch,
)
    requires
        schemas_patch_of(p, old, new),
        p.changed.inv(),
        forall|k: Seq<char>|
            #[trigger] p.changed@.contains_key(k) ==> p.changed@[k].changed.inv() && p.changed@[k].added.inv(),
    ensures
        write_sets(schema_store(old), gsettings_sets(p.changed.seq())) == laid_over(old, new),
{
    let s = p.changed.seq();
    p.changed.lemma_inv();
    assert forall|j: int| 0 <= j < s.len() implies (#[trigger] s[j]).1.changed.inv() && s[j].1.added.inv()
        && new.contains_key(s[j].0@) && str_map_view(s[j].1.changed@).submap_of(str_map_view(new[s[j].0@].values@))
        && str_map_view(s[j].1.added@).submap_of(str_map_view(new[s[j].0@].values@)) by {
        assert(p.changed@.contains_key(s[j].0@));
        assert(p.changed@[s[j].0@] == s[j].1);
    }
    lemma_gsettings_sets(s, new);
    let sets = gsettings_sets(s);
    lemma_write_sets(schema_store(old), sets, schema_store(new));
    let w = write_sets(schema_store(old), sets);
    let l = laid_over(old, new);
    assert forall|x: (Seq<char>, Seq<char>)| written(sets, x) <==> p.changed@.contains_key(x.0) && (str_map_view(
        p.changed@[x.0].changed@,
    ).contains_key(x.1) || str_map_view(p.changed@[x.0].added@).contains_key(x.1)) by {
        if written(sets, x) {
            let j = choose|j: int|
                0 <= j < s.len() && (#[trigger] s[j]).0@ == x.0 && (str_map_view(s[j].1.changed@).contains_key(x.1)
                    || str_map_view(s[j].1.added@).contains_key(x.1));
            assert(p.changed@[s[j].0@] == s[j].1);
        }
        if p.changed@.contains_key(x.0) && (str_map_view(p.changed@[x.0].changed@).contains_key(x.1) || str_map_view(
            p.changed@[x.0].added@,
        ).contains_key(x.1)) {
            assert(has_key(s, x.0));
            let j = choose|j: int| 0 <= j < s.len() && #[trigger] s[j].0@ == x.0;
            assert(p.changed@[s[j].0@] == s[j].1);
        }
    }
    assert forall|x: (Seq<char>, Seq<char>)| #[trigger] w.contains_key(x) == l.contains_key(x) && (w.contains_key(x)
        ==> w[x] == l[x]) by {
        let o = str_map_view(old[x.0].values@);
        let n = str_map_view(new[x.0].values@);
        if old.contains_key(x.0) && new.contains_key(x.0) {
            if p.changed@.contains_key(x.0) {
                assert(str_map_view(p.changed@[x.0].changed@) == changed_values(o, n));
                assert(str_map_view(p.changed@[x.0].added@) == n.remove_keys(old[x.0].values@.dom()));
            } else {
                assert(!changed_values(o, n).dom().contains(x.1));
                assert(!n.remove_keys(old[x.0].values@.dom()).dom().contains(x.1));
            }
        }
    }
    assert(w =~= l);
}

} // verus!
