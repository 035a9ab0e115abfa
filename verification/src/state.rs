//! The state-ingestion engine: merges streamed metadata, task and resource
//! deltas into a consistent queryable snapshot, runs time-windowed
//! retention over the entities, and holds the shared detail slot for the
//! currently focused task.

use crate::fields::{
    decode_field_model, models, rows_match, Field, FieldModel, Metadata, MetaModel, WireField,
    WireMetadata,
};
use crate::intern::{pool_extends, pool_releases_only, Strings};
use crate::ui::ViewState;
use vstd::prelude::*;

verus! {

/// Whether the entity list being updated is the one currently shown;
/// presentation rows are only computed for the visible list.
pub enum Visibility {
    Show,
    Hide,
}

/// A task or resource delta on the wire: the entity's stable identifier,
/// the metadata it was produced under, and its full field set.
pub struct EntityDelta {
    pub id: u64,
    pub metadata_id: Option<u64>,
    pub fields: Vec<WireField>,
}

/// A batch of task deltas.
pub struct TaskUpdate {
    pub tasks: Vec<EntityDelta>,
}

/// A batch of resource deltas.
pub struct ResourceUpdate {
    pub resources: Vec<EntityDelta>,
}

/// One new metadata record in an update batch.
pub struct NewMetadata {
    pub id: Option<u64>,
    pub metadata: Option<WireMetadata>,
}

/// One streamed update batch: an optional producer timestamp, optional new
/// metadata, and optional task and resource delta batches.
pub struct Update {
    pub now: Option<u64>,
    pub new_metadata: Option<Vec<NewMetadata>>,
    pub task_update: Option<TaskUpdate>,
    pub resource_update: Option<ResourceUpdate>,
}

/// A task-detail response: the task it belongs to and a serialized
/// histogram of poll times.
pub struct TaskDetails {
    pub task_id: Option<u64>,
    pub poll_times_histogram: Option<Vec<u8>>,
}

/// Whether the engine advances on updates or stands still.
pub enum Temporality {
    Live,
    Paused,
}

/// A live entity (task or resource): its stable identifier, the metadata it
/// referenced, its decoded fields, the producer timestamp it was last
/// updated at, and its lazily computed display rows.
pub struct Entity {
    pub id: u64,
    pub meta_id: u64,
    pub fields: Vec<Field>,
    pub last_updated: Option<u64>,
    pub formatted: Option<Vec<String>>,
}

/// The mathematical image of an entity's data.
pub struct EntityModel {
    pub id: u64,
    pub meta_id: u64,
    pub fields: Seq<FieldModel>,
    pub last_updated: Option<u64>,
}

/// The full image of an entity: its data and its display rows.
pub struct EntityRecord {
    pub core: EntityModel,
    pub formatted: Option<Seq<Seq<char>>>,
}

impl Entity {
    /// The full image of this entity.
    pub open spec fn record(&self) -> EntityRecord {
        EntityRecord {
            core: EntityModel {
                id: self.id,
                meta_id: self.meta_id,
                fields: models(self.fields@),
                last_updated: self.last_updated,
            },
            formatted: match self.formatted {
                Option::Some(rows) => Option::Some(rows.deep_view()),
                Option::None => Option::None,
            },
        }
    }
}

/// Whether some metadata record in `ms` carries identifier `id`.
pub open spec fn meta_has_id(ms: Seq<MetaModel>, id: u64) -> bool {
    exists|i: int| 0 <= i < ms.len() && ms[i].id == id
}

/// The index of the metadata record carrying identifier `id`.
pub open spec fn meta_index(ms: Seq<MetaModel>, id: u64) -> int {
    choose|i: int| 0 <= i < ms.len() && ms[i].id == id
}

/// Metadata identifiers are pairwise distinct.
pub open spec fn metas_wf(ms: Seq<MetaModel>) -> bool {
    forall|i: int, j: int| 0 <= i < j < ms.len() ==> ms[i].id != ms[j].id
}

/// The image of a wire metadata record registered under `id`.
pub open spec fn wire_meta_model(id: u64, pb: WireMetadata) -> MetaModel {
    MetaModel {
        id,
        target: pb.target@,
        field_names: Seq::new(pb.field_names@.len(), |i: int| pb.field_names@[i]@),
    }
}

/// What inserting a record into the table does: last write wins for a
/// repeated identifier, otherwise the record is appended.
pub open spec fn insert_meta_model(ms: Seq<MetaModel>, m: MetaModel) -> Seq<MetaModel> {
    if meta_has_id(ms, m.id) {
        ms.update(meta_index(ms, m.id), m)
    } else {
        ms.push(m)
    }
}

/// What ingesting a whole new-metadata batch does, in order: entries
/// without an identifier or without a record are skipped.
pub open spec fn ingest_metas_model(ms: Seq<MetaModel>, batch: Seq<NewMetadata>) -> Seq<MetaModel>
    decreases batch.len(),
{
    if batch.len() == 0 {
        ms
    } else {
        let rest = ingest_metas_model(ms, batch.drop_last());
        match (batch.last().id, batch.last().metadata) {
            (Option::Some(id), Option::Some(pb)) => insert_meta_model(
                rest,
                wire_meta_model(id, pb),
            ),
            _ => rest,
        }
    }
}

/// The metadata table, keyed by the producer's numeric identifier.
pub struct MetaTable {
    entries: Vec<Metadata>,
}

impl MetaTable {
    /// The images of the stored records, in insertion order.
    pub closed spec fn models(&self) -> Seq<MetaModel> {
        Seq::new(self.entries@.len(), |i: int| self.entries@[i].model())
    }

    pub open spec fn wf(&self) -> bool {
        metas_wf(self.models())
    }

    /// An empty table.
    pub fn new() -> (t: MetaTable)
        ensures
            t.models() =~= Seq::<MetaModel>::empty(),
            t.wf(),
    {
        MetaTable { entries: Vec::new() }
    }

    fn find(&self, id: u64) -> (r: Option<usize>)
        requires
            self.wf(),
        ensures
            match r {
                Some(i) => i < self.models().len() && self.models()[i as int].id == id
                    && i == meta_index(self.models(), id),
                None => !meta_has_id(self.models(), id),
            },
    {
        let n = self.entries.len();
        let mut i: usize = 0;
        while i < n
            invariant
                self.wf(),
                n == self.models().len(),
                0 <= i <= n,
                forall|j: int| 0 <= j < i ==> self.models()[j].id != id,
            decreases n - i,
        {
            if self.entries[i].id == id {
                proof {
                    assert(self.models()[i as int].id == id);
                    assert(meta_has_id(self.models(), id));
                    let k = meta_index(self.models(), id);
                    assert(0 <= k < self.models().len() && self.models()[k].id == id);
                    assert(k == i as int);
                }
                return Some(i);
            }
            i += 1;
        }
        None
    }

    /// Looks a record up by identifier.
    pub fn get(&self, id: u64) -> (r: Option<&Metadata>)
        requires
            self.wf(),
        ensures
            match r {
                Some(m) => meta_has_id(self.models(), id) && m.model() == self.models()[
                    meta_index(self.models(), id)
                ] && m.id == id,
                None => !meta_has_id(self.models(), id),
            },
    {
        match self.find(id) {
            Some(i) => Some(&self.entries[i]),
            None => None,
        }
    }

    /// Inserts a record, silently overwriting one already registered under
    /// the same identifier.
    pub fn insert(&mut self, m: Metadata)
        requires
            old(self).wf(),
        ensures
            final(self).wf(),
            final(self).models() == insert_meta_model(old(self).models(), m.model()),
    {
        let ghost ms0 = self.models();
        match self.find(m.id) {
            Some(i) => {
                self.entries[i] = m;
                proof {
                    assert(self.models() =~= insert_meta_model(ms0, m.model()));
                }
            },
            None => {
                self.entries.push(m);
                proof {
                    assert(self.models() =~= insert_meta_model(ms0, m.model()));
                }
            },
        }
    }
}

/// Whether some entity in `es` carries identifier `id`.
pub open spec fn entity_has_id(es: Seq<EntityModel>, id: u64) -> bool {
    exists|i: int| 0 <= i < es.len() && es[i].id == id
}

/// The index of the entity carrying identifier `id`.
pub open spec fn entity_index(es: Seq<EntityModel>, id: u64) -> int {
    choose|i: int| 0 <= i < es.len() && es[i].id == id
}

/// Entity identifiers are pairwise distinct.
pub open spec fn entities_wf(es: Seq<EntityModel>) -> bool {
    forall|i: int, j: int| 0 <= i < j < es.len() ==> es[i].id != es[j].id
}

/// What decoding a whole wire field list yields: invalid or empty fields
/// are dropped, the rest keep their order.
pub open spec fn decode_fields_model(wfs: Seq<WireField>, meta: MetaModel) -> Seq<FieldModel>
    decreases wfs.len(),
{
    if wfs.len() == 0 {
        Seq::empty()
    } else {
        let rest = decode_fields_model(wfs.drop_last(), meta);
        match decode_field_model(wfs.last(), meta.id, meta.field_names) {
            Option::Some(f) => rest.push(f),
            Option::None => rest,
        }
    }
}

/// Whether a delta names metadata the table knows; deltas that do not are
/// skipped whole.
pub open spec fn delta_valid(d: EntityDelta, metas: Seq<MetaModel>) -> bool {
    match d.metadata_id {
        Option::Some(mid) => meta_has_id(metas, mid),
        Option::None => false,
    }
}

/// What applying one delta does to the entity collection: the entity is
/// created on first sight of its identifier, otherwise its fields are
/// replaced wholesale; its timestamp becomes the batch's timestamp when one
/// is present.
pub open spec fn apply_delta_model(
    es: Seq<EntityModel>,
    d: EntityDelta,
    metas: Seq<MetaModel>,
    now: Option<u64>,
) -> Seq<EntityModel> {
    if !delta_valid(d, metas) {
        es
    } else {
        let mid = d.metadata_id.unwrap();
        let meta = metas[meta_index(metas, mid)];
        let fields = decode_fields_model(d.fields@, meta);
        let lu = if now is Some {
            now
        } else if entity_has_id(es, d.id) {
            es[entity_index(es, d.id)].last_updated
        } else {
            Option::None
        };
        let e = EntityModel { id: d.id, meta_id: mid, fields, last_updated: lu };
        if entity_has_id(es, d.id) {
            es.update(entity_index(es, d.id), e)
        } else {
            es.push(e)
        }
    }
}

/// What applying a whole delta batch does, in order.
pub open spec fn apply_deltas_model(
    es: Seq<EntityModel>,
    ds: Seq<EntityDelta>,
    metas: Seq<MetaModel>,
    now: Option<u64>,
) -> Seq<EntityModel>
    decreases ds.len(),
{
    if ds.len() == 0 {
        es
    } else {
        apply_deltas_model(apply_delta_model(es, ds.first(), metas, now), ds.drop_first(), metas, now)
    }
}

proof fn lemma_apply_deltas_snoc(
    es: Seq<EntityModel>,
    ds: Seq<EntityDelta>,
    d: EntityDelta,
    metas: Seq<MetaModel>,
    now: Option<u64>,
)
    ensures
        apply_deltas_model(es, ds.push(d), metas, now) == apply_delta_model(
            apply_deltas_model(es, ds, metas, now),
            d,
            metas,
            now,
        ),
    decreases ds.len(),
{
    let p = ds.push(d);
    assert(p.len() > 0);
    assert(apply_deltas_model(es, p, metas, now) == apply_deltas_model(
        apply_delta_model(es, p.first(), metas, now),
        p.drop_first(),
        metas,
        now,
    ));
    if ds.len() == 0 {
        assert(p.first() == d);
        assert(p.drop_first() =~= Seq::<EntityDelta>::empty());
        assert(apply_deltas_model(apply_delta_model(es, d, metas, now), p.drop_first(), metas, now)
            == apply_delta_model(es, d, metas, now));
        assert(apply_deltas_model(es, ds, metas, now) == es);
    } else {
        assert(p.first() == ds.first());
        assert(p.drop_first() =~= ds.drop_first().push(d));
        lemma_apply_deltas_snoc(
            apply_delta_model(es, ds.first(), metas, now),
            ds.drop_first(),
            d,
            metas,
            now,
        );
        assert(apply_deltas_model(es, ds, metas, now) == apply_deltas_model(
            apply_delta_model(es, ds.first(), metas, now),
            ds.drop_first(),
            metas,
            now,
        ));
    }
}

/// Whether some valid delta in the batch targets entity `id`.
pub open spec fn delta_touches(ds: Seq<EntityDelta>, metas: Seq<MetaModel>, id: u64) -> bool {
    exists|k: int| 0 <= k < ds.len() && ds[k].id == id && delta_valid(ds[k], metas)
}

/// How display rows relate across one update: rows of entities no valid
/// delta touched are untouched; touched entities get fresh rows for their
/// new fields when the list is visible, and keep stale rows (or none, when
/// newly created) when it is not.
pub open spec fn presentation_ok(
    rs0: Seq<EntityRecord>,
    rs1: Seq<EntityRecord>,
    ds: Seq<EntityDelta>,
    metas: Seq<MetaModel>,
    visible: bool,
) -> bool {
    forall|i: int| 0 <= i < rs1.len() ==> #[trigger] rs1[i].formatted == (
        if delta_touches(ds, metas, rs1[i].core.id) {
            if visible {
                rs1[i].formatted
            } else if i < rs0.len() {
                rs0[i].formatted
            } else {
                Option::<Seq<Seq<char>>>::None
            }
        } else if i < rs0.len() {
            rs0[i].formatted
        } else {
            Option::<Seq<Seq<char>>>::None
        }
    ) && (delta_touches(ds, metas, rs1[i].core.id) && visible ==> (rs1[i].formatted matches Some(
        rows,
    ) && rows_match(rows, rs1[i].core.fields)))
}

/// Whether an entity is young enough to keep under retention window
/// `retain_for` at time `now`; entities that never saw a timestamp are
/// kept.
pub open spec fn entity_kept(e: EntityModel, now: u64, retain_for: u64) -> bool {
    match e.last_updated {
        Option::Some(t) => t + retain_for >= now,
        Option::None => true,
    }
}

/// The retention boundary: with the clock at `now` and window `d`, an entity
/// last updated one moment before `now - d` is dropped by the next retention
/// pass, and one last updated one moment after survives it.
pub proof fn lemma_retention_boundary(
    t1: u64,
    t2: u64,
    e1: EntityModel,
    e2: EntityModel,
    now: u64,
    d: u64,
)
    requires
        t1 + d + 1 == now,
        t2 + d == now + 1,
        e1.last_updated == Some(t1),
        e2.last_updated == Some(t2),
    ensures
        !entity_kept(e1, now, d),
        entity_kept(e2, now, d),
{
}


/// The data images of a record list.
pub open spec fn cores(rs: Seq<EntityRecord>) -> Seq<EntityModel> {
    Seq::new(rs.len(), |i: int| rs[i].core)
}

proof fn lemma_filter_keeps_entities_wf(s: Seq<EntityRecord>, pred: spec_fn(EntityRecord) -> bool)
    requires
        entities_wf(cores(s)),
    ensures
        entities_wf(cores(s.filter(pred))),
        forall|i: int| 0 <= i < s.filter(pred).len() ==> s.contains(#[trigger] s.filter(pred)[i]),
    decreases s.len(),
{
    reveal(Seq::filter);
    if s.len() > 0 {
        let d = s.drop_last();
        assert(entities_wf(cores(d))) by {
            assert forall|i: int, j: int| 0 <= i < j < cores(d).len() implies cores(d)[i].id
                != cores(d)[j].id by {
                assert(cores(s)[i] == cores(d)[i] && cores(s)[j] == cores(d)[j]);
            }
        }
        lemma_filter_keeps_entities_wf(d, pred);
        let sub = d.filter(pred);
        let out = s.filter(pred);
        assert forall|i: int| 0 <= i < out.len() implies s.contains(out[i]) by {
            if i < sub.len() {
                assert(d.contains(sub[i]));
                let j = choose|j: int| 0 <= j < d.len() && d[j] == sub[i];
                assert(s[j] == out[i]);
            } else {
                assert(out[i] == s.last());
                assert(s[s.len() - 1] == s.last());
            }
        }
        if pred(s.last()) {
            assert forall|a: int, b: int| 0 <= a < b < cores(out).len() implies cores(out)[a].id
                != cores(out)[b].id by {
                if a < sub.len() && b < sub.len() {
                    assert(out[a] == sub[a] && out[b] == sub[b]);
                    assert(cores(sub)[a].id != cores(sub)[b].id);
                } else {
                    assert(b == sub.len());
                    assert(out[a] == sub[a]);
                    assert(out[b] == s.last());
                    assert(d.contains(sub[a]));
                    let j = choose|j: int| 0 <= j < d.len() && d[j] == sub[a];
                    assert(cores(s)[j].id == sub[a].core.id);
                    assert(cores(s)[s.len() - 1].id == s.last().core.id);
                    assert(j != s.len() - 1);
                }
            }
        } else {
            assert forall|a: int, b: int| 0 <= a < b < cores(out).len() implies cores(out)[a].id
                != cores(out)[b].id by {
                assert(out[a] == sub[a] && out[b] == sub[b]);
                assert(cores(sub)[a].id != cores(sub)[b].id);
            }
        }
    }
}

fn entity_kept_exec(e: &Entity, now: u64, retain_for: u64) -> (r: bool)
    ensures
        r == entity_kept(e.record().core, now, retain_for),
{
    match e.last_updated {
        None => true,
        Some(t) => {
            if retain_for <= now {
                t >= now - retain_for
            } else {
                true
            }
        },
    }
}

fn release_fields(strings: &mut Strings, fields: &Vec<Field>)
    requires
        old(strings).wf(),
    ensures
        final(strings).wf(),
        pool_releases_only(old(strings)@, final(strings)@),
        pool_extends(old(strings)@, final(strings)@),
        final(strings).fresh_id() == old(strings).fresh_id(),
{
    let ghost p0 = strings@;
    let n = fields.len();
    let mut i: usize = 0;
    while i < n
        invariant
            strings.wf(),
            0 <= i <= n,
            n == fields@.len(),
            pool_releases_only(p0, strings@),
            pool_extends(p0, strings@),
            strings.fresh_id() == old(strings).fresh_id(),
        decreases n - i,
    {
        let ghost pm = strings@;
        strings.release(fields[i].name.id);
        proof {
            assert(pool_releases_only(pm, strings@));
            crate::intern::lemma_pool_releases_only_trans(p0, pm, strings@);
            crate::intern::lemma_pool_extends_trans(p0, pm, strings@);
        }
        i += 1;
    }
}

/// A collection of live entities, keyed by their stable identifiers.
pub struct EntityList {
    entities: Vec<Entity>,
}

impl EntityList {
    /// The full images of the entities, in storage order.
    pub closed spec fn records(&self) -> Seq<EntityRecord> {
        Seq::new(self.entities@.len(), |i: int| self.entities@[i].record())
    }

    /// The data images of the entities.
    pub open spec fn models(&self) -> Seq<EntityModel> {
        cores(self.records())
    }

    pub open spec fn wf(&self) -> bool {
        entities_wf(self.models())
    }

    /// An empty collection.
    pub fn new() -> (r: EntityList)
        ensures
            r.records() =~= Seq::<EntityRecord>::empty(),
            r.wf(),
    {
        EntityList { entities: Vec::new() }
    }

    /// How many entities are live.
    pub fn len(&self) -> (n: usize)
        ensures
            n == self.records().len(),
    {
        self.entities.len()
    }

    /// The entity at a storage position, for rendering.
    pub fn entity_at(&self, i: usize) -> (e: &Entity)
        requires
            i < self.records().len(),
        ensures
            e.record() == self.records()[i as int],
    {
        &self.entities[i]
    }

    fn find(&self, id: u64) -> (r: Option<usize>)
        requires
            self.wf(),
        ensures
            match r {
                Some(i) => i < self.models().len() && self.models()[i as int].id == id
                    && i == entity_index(self.models(), id),
                None => !entity_has_id(self.models(), id),
            },
    {
        let n = self.entities.len();
        let mut i: usize = 0;
        while i < n
            invariant
                self.wf(),
                n == self.models().len(),
                0 <= i <= n,
                forall|j: int| 0 <= j < i ==> self.models()[j].id != id,
            decreases n - i,
        {
            if self.entities[i].id == id {
                proof {
                    assert(self.models()[i as int].id == id);
                    assert(entity_has_id(self.models(), id));
                    let k = entity_index(self.models(), id);
                    assert(0 <= k < self.models().len() && self.models()[k].id == id);
                    assert(k == i as int);
                }
                return Some(i);
            }
            i += 1;
        }
        None
    }

    /// Looks an entity up by its stable identifier; an evicted or unknown
    /// identifier is a valid, non-exceptional miss.
    pub fn entity(&self, id: u64) -> (r: Option<&Entity>)
        requires
            self.wf(),
        ensures
            match r {
                Some(e) => entity_has_id(self.models(), id) && e.record() == self.records()[
                    entity_index(self.models(), id)
                ] && e.id == id,
                None => !entity_has_id(self.models(), id),
            },
    {
        match self.find(id) {
            Some(i) => Some(&self.entities[i]),
            None => None,
        }
    }

    /// Applies a delta batch in order: each valid delta creates or replaces
    /// the entity it targets; display rows are computed only when the list
    /// is visible, and kept stale otherwise.
    pub fn update_entities(
        &mut self,
        strings: &mut Strings,
        metas: &MetaTable,
        deltas: Vec<EntityDelta>,
        visibility: Visibility,
        now: Option<u64>,
    )
        requires
            old(self).wf(),
            old(strings).wf(),
            metas.wf(),
        ensures
            final(self).wf(),
            final(strings).wf(),
            pool_extends(old(strings)@, final(strings)@),
            old(strings).fresh_id() <= final(strings).fresh_id(),
            final(self).models() == apply_deltas_model(
                old(self).models(),
                deltas@,
                metas.models(),
                now,
            ),
            presentation_ok(
                old(self).records(),
                final(self).records(),
                deltas@,
                metas.models(),
                visibility is Show,
            ),
    {
        let ghost ds_all = deltas@;
        let ghost m0 = self.models();
        let ghost rs0 = self.records();
        let ghost p0 = strings@;
        let ghost f0 = strings.fresh_id();
        let visible = matches!(visibility, Visibility::Show);
        let mut deltas = deltas;
        let ghost mut k: int = 0;
        proof {
            assert(ds_all.take(0) =~= Seq::<EntityDelta>::empty());
            assert(deltas@ =~= ds_all.skip(0));
        }
        while deltas.len() > 0
            invariant
                self.wf(),
                strings.wf(),
                metas.wf(),
                0 <= k <= ds_all.len(),
                deltas@ =~= ds_all.skip(k),
                pool_extends(p0, strings@),
                f0 <= strings.fresh_id(),
                rs0.len() <= self.records().len(),
                self.models() == apply_deltas_model(m0, ds_all.take(k), metas.models(), now),
                presentation_ok(rs0, self.records(), ds_all.take(k), metas.models(), visible),
            decreases deltas@.len(),
        {
            let ghost rs_mid = self.records();
            let ghost p_mid = strings@;
            let d = deltas.remove(0);
            proof {
                assert(d == ds_all[k]);
                assert(ds_all.take(k + 1) =~= ds_all.take(k).push(d));
                assert(deltas@ =~= ds_all.skip(k + 1));
                lemma_apply_deltas_snoc(m0, ds_all.take(k), d, metas.models(), now);
            }
            let d_id = d.id;
            let ghost d_ghost = d;
            // where the delta landed, and whether its rows were refreshed
            let ghost mut upsert: Option<int> = Option::None;
            let mut handled = false;
            if let Some(mid) = d.metadata_id {
                if let Some(meta) = metas.get(mid) {
                    handled = true;
                    // decode the full field set
                    let mut wfs = d.fields;
                    let ghost wfs_all = wfs@;
                    let mut decoded: Vec<Field> = Vec::new();
                    let ghost mut k2: int = 0;
                    proof {
                        assert(wfs_all.take(0) =~= Seq::<WireField>::empty());
                        assert(wfs@ =~= wfs_all.skip(0));
                        assert(crate::fields::models(decoded@) =~= decode_fields_model(
                            wfs_all.take(0),
                            meta.model(),
                        ));
                    }
                    while wfs.len() > 0
                        invariant
                            strings.wf(),
                            0 <= k2 <= wfs_all.len(),
                            wfs@ =~= wfs_all.skip(k2),
                            pool_extends(p_mid, strings@),
                            f0 <= strings.fresh_id(),
                            crate::fields::models(decoded@) == decode_fields_model(
                                wfs_all.take(k2),
                                meta.model(),
                            ),
                        decreases wfs@.len(),
                    {
                        let ghost p_it = strings@;
                        let w = wfs.remove(0);
                        proof {
                            assert(w == wfs_all[k2]);
                            assert(wfs_all.take(k2 + 1).drop_last() =~= wfs_all.take(k2));
                            assert(wfs_all.take(k2 + 1).last() == w);
                            assert(wfs@ =~= wfs_all.skip(k2 + 1));
                        }
                        match Field::from_proto(w, meta, strings) {
                            Some(f) => {
                                let ghost dm = crate::fields::models(decoded@);
                                decoded.push(f);
                                proof {
                                    assert(crate::fields::models(decoded@) =~= dm.push(f.model()));
                                }
                            },
                            None => {},
                        }
                        proof {
                            crate::intern::lemma_pool_extends_trans(p_mid, p_it, strings@);
                            k2 = k2 + 1;
                        }
                    }
                    proof {
                        assert(wfs_all.take(wfs_all.len() as int) =~= wfs_all);
                        assert(crate::fields::models(decoded@) == decode_fields_model(
                            d_ghost.fields@,
                            meta.model(),
                        ));
                    }
                    // display rows, only for the visible list
                    let ghost fields_model = crate::fields::models(decoded@);
                    let mut rows_opt: Option<Vec<String>> = None;
                    if visible {
                        let mut copy = crate::fields::duplicate_fields(&decoded);
                        let rows = Field::make_formatted(&mut copy);
                        proof {
                            let sorted = crate::fields::models(copy@);
                            assert(rows.deep_view() =~= crate::fields::rows_of(sorted));
                            assert(crate::fields::rows_match(rows.deep_view(), fields_model));
                        }
                        rows_opt = Some(rows);
                    }
                    let ghost rows_ghost = match &rows_opt {
                        Option::Some(r) => Option::Some(r.deep_view()),
                        Option::None => Option::<Seq<Seq<char>>>::None,
                    };
                    // upsert
                    match self.find(d_id) {
                        Some(idx) => {
                            proof {
                                upsert = Option::Some(idx as int);
                            }
                            let ghost p_rel = strings@;
                            release_fields(strings, &self.entities[idx].fields);
                            proof {
                                crate::intern::lemma_pool_extends_trans(p_mid, p_rel, strings@);
                            }
                            let e = &mut self.entities[idx];
                            e.meta_id = mid;
                            e.fields = decoded;
                            if now.is_some() {
                                e.last_updated = now;
                            }
                            if visible {
                                e.formatted = rows_opt;
                            }
                            proof {
                                assert forall|q: int|
                                    0 <= q < self.records().len() && q != idx implies #[trigger]
                                    self.records()[q] == rs_mid[q] by {}
                                assert(self.records()[idx as int].core.fields == fields_model);
                                if visible {
                                    assert(self.records()[idx as int].formatted == rows_ghost);
                                } else {
                                    assert(self.records()[idx as int].formatted == rs_mid[
                                        idx as int
                                    ].formatted);
                                }
                            }
                        },
                        None => {
                            let e = Entity {
                                id: d_id,
                                meta_id: mid,
                                fields: decoded,
                                last_updated: now,
                                formatted: if visible { rows_opt } else { None },
                            };
                            self.entities.push(e);
                            proof {
                                assert forall|q: int|
                                    0 <= q < rs_mid.len() implies #[trigger] self.records()[q]
                                    == rs_mid[q] by {}
                                assert(self.records().len() == rs_mid.len() + 1);
                                assert(self.records()[rs_mid.len() as int].core.fields
                                    == fields_model);
                                if visible {
                                    assert(self.records()[rs_mid.len() as int].formatted
                                        == rows_ghost);
                                } else {
                                    assert(self.records()[rs_mid.len() as int].formatted is None);
                                }
                            }
                        },
                    }
                    proof {
                        assert(self.models() =~= apply_delta_model(
                            cores(rs_mid),
                            d_ghost,
                            metas.models(),
                            now,
                        ));
                    }
                }
            }
            proof {
                if !handled {
                    assert(!delta_valid(d_ghost, metas.models()));
                    assert(self.records() == rs_mid);
                }
                assert(self.models() == apply_deltas_model(
                    m0,
                    ds_all.take(k + 1),
                    metas.models(),
                    now,
                ));
                crate::intern::lemma_pool_extends_trans(p0, p_mid, strings@);
                // presentation bookkeeping
                let rs1 = self.records();
                let ds_new = ds_all.take(k + 1);
                let ds_old = ds_all.take(k);
                assert forall|w: int| 0 <= w < ds_old.len() implies ds_new[w] == ds_old[w] by {}
                assert(ds_new[ds_old.len() as int] == d_ghost);
                assert forall|id: u64|
                    #[trigger] delta_touches(ds_old, metas.models(), id) implies delta_touches(
                    ds_new,
                    metas.models(),
                    id,
                ) by {
                    let w = choose|w: int|
                        0 <= w < ds_old.len() && ds_old[w].id == id && delta_valid(
                            ds_old[w],
                            metas.models(),
                        );
                    assert(ds_new[w] == ds_old[w]);
                }
                assert forall|id: u64|
                    delta_touches(ds_new, metas.models(), id) && !#[trigger] delta_touches(
                        ds_old,
                        metas.models(),
                        id,
                    ) implies id == d_ghost.id && delta_valid(d_ghost, metas.models()) by {
                    let w = choose|w: int|
                        0 <= w < ds_new.len() && ds_new[w].id == id && delta_valid(
                            ds_new[w],
                            metas.models(),
                        );
                    if w < ds_old.len() {
                        assert(ds_old[w] == ds_new[w]);
                    } else {
                        assert(ds_new[w] == d_ghost);
                    }
                }
                assert forall|q: int| 0 <= q < rs1.len() implies (#[trigger] rs1[q].formatted == (
                    if delta_touches(ds_new, metas.models(), rs1[q].core.id) {
                        if visible {
                            rs1[q].formatted
                        } else if q < rs0.len() {
                            rs0[q].formatted
                        } else {
                            Option::<Seq<Seq<char>>>::None
                        }
                    } else if q < rs0.len() {
                        rs0[q].formatted
                    } else {
                        Option::<Seq<Seq<char>>>::None
                    }
                ) && (delta_touches(ds_new, metas.models(), rs1[q].core.id) && visible ==> (rs1[
                    q
                ].formatted matches Some(rows) && crate::fields::rows_match(
                    rows,
                    rs1[q].core.fields,
                )))) by {
                    if q < rs_mid.len() {
                        assert(presentation_ok(rs0, rs_mid, ds_old, metas.models(), visible));
                        assert(rs_mid[q].formatted == (
                            if delta_touches(ds_old, metas.models(), rs_mid[q].core.id) {
                                if visible {
                                    rs_mid[q].formatted
                                } else if q < rs0.len() {
                                    rs0[q].formatted
                                } else {
                                    Option::<Seq<Seq<char>>>::None
                                }
                            } else if q < rs0.len() {
                                rs0[q].formatted
                            } else {
                                Option::<Seq<Seq<char>>>::None
                            }
                        ));
                        assert(delta_touches(ds_old, metas.models(), rs_mid[q].core.id) && visible
                            ==> (rs_mid[q].formatted matches Some(rows)
                            && crate::fields::rows_match(rows, rs_mid[q].core.fields)));
                        if handled && upsert == Option::Some(q) {
                            assert(rs1[q].core.id == d_ghost.id);
                            assert(delta_touches(ds_new, metas.models(), rs1[q].core.id));
                        } else {
                            assert(rs1[q] == rs_mid[q]);
                            if delta_touches(ds_new, metas.models(), rs1[q].core.id)
                                && !delta_touches(ds_old, metas.models(), rs1[q].core.id) {
                                assert(rs1[q].core.id == d_ghost.id && delta_valid(
                                    d_ghost,
                                    metas.models(),
                                ));
                                assert(handled);
                                assert(cores(rs_mid)[q].id == d_ghost.id);
                                match upsert {
                                    Option::Some(i) => {
                                        assert(cores(rs_mid)[i].id == d_ghost.id);
                                        assert(q != i);
                                        assert(cores(rs_mid)[q].id != cores(rs_mid)[i].id);
                                        assert(false);
                                    },
                                    Option::None => {
                                        assert(entity_has_id(cores(rs_mid), d_ghost.id));
                                        assert(false);
                                    },
                                }
                            }
                        }
                    } else {
                        // the entity this delta just created
                        assert(handled);
                        assert(q == rs_mid.len());
                        assert(rs1[q].core.id == d_ghost.id);
                        assert(delta_touches(ds_new, metas.models(), rs1[q].core.id));
                        assert(rs0.len() <= rs_mid.len());
                    }
                }
                k = k + 1;
            }
        }
        proof {
            assert(ds_all.take(ds_all.len() as int) =~= ds_all);
        }
    }

    /// Drops every entity whose last update is older than the retention
    /// window, releasing its interned names.
    pub fn retain_active(&mut self, strings: &mut Strings, now: u64, retain_for: u64)
        requires
            old(self).wf(),
            old(strings).wf(),
        ensures
            final(self).wf(),
            final(strings).wf(),
            pool_releases_only(old(strings)@, final(strings)@),
            final(strings).fresh_id() == old(strings).fresh_id(),
            final(self).records() == old(self).records().filter(
                |r: EntityRecord| entity_kept(r.core, now, retain_for),
            ),
    {
        let ghost rs0 = self.records();
        let ghost p0 = strings@;
        let n = self.entities.len();
        let mut kept: Vec<Entity> = Vec::new();
        let mut i: usize = 0;
        while i < n
            invariant
                self.wf(),
                strings.wf(),
                n == rs0.len(),
                0 <= i <= n,
                self.records() == rs0,
                n == self.records().len(),
                pool_releases_only(p0, strings@),
                strings.fresh_id() == old(strings).fresh_id(),
                Seq::new(kept@.len(), |q: int| kept@[q].record()) =~= rs0.subrange(
                    0,
                    i as int,
                ).filter(|r: EntityRecord| entity_kept(r.core, now, retain_for)),
            decreases n - i,
        {
            let ghost pre = rs0.subrange(0, i as int);
            let ghost post = rs0.subrange(0, (i + 1) as int);
            let e = &self.entities[i];
            if entity_kept_exec(e, now, retain_for) {
                let copy = Entity {
                    id: e.id,
                    meta_id: e.meta_id,
                    fields: crate::fields::duplicate_fields(&e.fields),
                    last_updated: e.last_updated,
                    formatted: match &e.formatted {
                        Some(rows) => Some(duplicate_rows(rows)),
                        None => None,
                    },
                };
                proof {
                    assert(copy.record() =~= rs0[i as int]);
                    assert(copy.record() == rs0[i as int]);
                }
                kept.push(copy);
            } else {
                let ghost pm = strings@;
                release_fields(strings, &e.fields);
                proof {
                    crate::intern::lemma_pool_releases_only_trans(p0, pm, strings@);
                }
            }
            proof {
                reveal(Seq::filter);
                assert(post.drop_last() =~= pre);
                assert(post.last() == rs0[i as int]);
            }
            i += 1;
        }
        proof {
            assert(rs0.subrange(0, n as int) =~= rs0);
        }
        self.entities = kept;
        proof {
            let q = rs0.filter(|r: EntityRecord| entity_kept(r.core, now, retain_for));
            assert(self.records() =~= q);
            lemma_filter_keeps_entities_wf(rs0, |r: EntityRecord| entity_kept(r.core, now, retain_for));
        }
    }
}

fn duplicate_rows(rows: &Vec<String>) -> (r: Vec<String>)
    ensures
        r.deep_view() =~= rows.deep_view(),
{
    let n = rows.len();
    let mut r: Vec<String> = Vec::new();
    let mut i: usize = 0;
    while i < n
        invariant
            0 <= i <= n,
            n == rows@.len(),
            r@.len() == i,
            forall|k: int| 0 <= k < i ==> r@[k]@ == rows@[k]@,
        decreases n - i,
    {
        r.push(rows[i].clone());
        i += 1;
    }
    r
}



/// A lint rule applied to tasks, passed through to the tasks substate; the
/// rules themselves are presentation logic outside the engine.
pub struct Linter {
    pub name: String,
}

/// The tasks substate: its live entities and the lint rules handed to it.
pub struct TasksState {
    pub entities: EntityList,
    pub linters: Vec<Linter>,
}

impl TasksState {
    pub fn new() -> (t: TasksState)
        ensures
            t.entities.records() =~= Seq::<EntityRecord>::empty(),
            t.entities.wf(),
            t.linters@.len() == 0,
    {
        TasksState { entities: EntityList::new(), linters: Vec::new() }
    }

    /// Applies a task delta batch (see `EntityList::update_entities`).
    pub fn update_tasks(
        &mut self,
        strings: &mut Strings,
        metas: &MetaTable,
        update: TaskUpdate,
        visibility: Visibility,
        now: Option<u64>,
    )
        requires
            old(self).entities.wf(),
            old(strings).wf(),
            metas.wf(),
        ensures
            final(self).entities.wf(),
            final(strings).wf(),
            pool_extends(old(strings)@, final(strings)@),
            old(strings).fresh_id() <= final(strings).fresh_id(),
            final(self).entities.models() == apply_deltas_model(
                old(self).entities.models(),
                update.tasks@,
                metas.models(),
                now,
            ),
            presentation_ok(
                old(self).entities.records(),
                final(self).entities.records(),
                update.tasks@,
                metas.models(),
                visibility is Show,
            ),
            final(self).linters@ == old(self).linters@,
    {
        self.entities.update_entities(strings, metas, update.tasks, visibility, now);
    }

    /// Drops tasks older than the retention window.
    pub fn retain_active(&mut self, strings: &mut Strings, now: u64, retain_for: u64)
        requires
            old(self).entities.wf(),
            old(strings).wf(),
        ensures
            final(self).entities.wf(),
            final(strings).wf(),
            pool_releases_only(old(strings)@, final(strings)@),
            final(strings).fresh_id() == old(strings).fresh_id(),
            final(self).entities.records() == old(self).entities.records().filter(
                |r: EntityRecord| entity_kept(r.core, now, retain_for),
            ),
            final(self).linters@ == old(self).linters@,
    {
        self.entities.retain_active(strings, now, retain_for);
    }
}

/// The resources substate: its live entities.
pub struct ResourcesState {
    pub entities: EntityList,
}

impl ResourcesState {
    pub fn new() -> (t: ResourcesState)
        ensures
            t.entities.records() =~= Seq::<EntityRecord>::empty(),
            t.entities.wf(),
    {
        ResourcesState { entities: EntityList::new() }
    }

    /// Applies a resource delta batch (see `EntityList::update_entities`).
    pub fn update_resources(
        &mut self,
        strings: &mut Strings,
        metas: &MetaTable,
        update: ResourceUpdate,
        visibility: Visibility,
        now: Option<u64>,
    )
        requires
            old(self).entities.wf(),
            old(strings).wf(),
            metas.wf(),
        ensures
            final(self).entities.wf(),
            final(strings).wf(),
            pool_extends(old(strings)@, final(strings)@),
            old(strings).fresh_id() <= final(strings).fresh_id(),
            final(self).entities.models() == apply_deltas_model(
                old(self).entities.models(),
                update.resources@,
                metas.models(),
                now,
            ),
            presentation_ok(
                old(self).entities.records(),
                final(self).entities.records(),
                update.resources@,
                metas.models(),
                visibility is Show,
            ),
    {
        self.entities.update_entities(strings, metas, update.resources, visibility, now);
    }

    /// Drops resources older than the retention window.
    pub fn retain_active(&mut self, strings: &mut Strings, now: u64, retain_for: u64)
        requires
            old(self).entities.wf(),
            old(strings).wf(),
        ensures
            final(self).entities.wf(),
            final(strings).wf(),
            pool_releases_only(old(strings)@, final(strings)@),
            final(strings).fresh_id() == old(strings).fresh_id(),
            final(self).entities.records() == old(self).entities.records().filter(
                |r: EntityRecord| entity_kept(r.core, now, retain_for),
            ),
    {
        self.entities.retain_active(strings, now, retain_for);
    }
}

/// A decoded poll-times histogram, opaque to the verifier: declaring
/// hdrhistogram::Histogram directly is refused because of its `Counter`
/// bound, so the value is carried behind this wrapper.
#[verifier::external_body]
pub struct PollTimesHistogram {
    hist: hdrhistogram::Histogram<u64>,
}

/// Whether `data` is a well-formed serialized histogram, as hdrhistogram's
/// deserializer decides it.
pub uninterp spec fn histogram_bytes_ok(data: Seq<u8>) -> bool;

/// Relies on hdrhistogram's serialization::Deserializer::deserialize: it
/// decodes a V2 or V2-compressed serialized histogram and fails exactly on
/// malformed bytes; the outcome depends on the bytes alone.
#[verifier::external_body]
fn deserialize_histogram(data: &Vec<u8>) -> (r: Option<PollTimesHistogram>)
    ensures
        r is Some <==> histogram_bytes_ok(data@),
{
    hdrhistogram::serialization::Deserializer::new()
        .deserialize(&mut std::io::Cursor::new(data))
        .ok()
        .map(|hist| PollTimesHistogram { hist })
}

/// The detail record of the currently focused task: its identifier and, if
/// the blob decoded, its poll-times histogram.
pub struct Details {
    pub task_id: u64,
    pub poll_times_histogram: Option<PollTimesHistogram>,
}

impl Details {
    /// The image of the detail record: the task and whether a histogram
    /// decoded.
    pub open spec fn model(&self) -> (u64, bool) {
        (self.task_id, self.poll_times_histogram is Some)
    }
}

/// The state engine: the interning pool, the metadata table, the two
/// entity substates, the retention configuration, and the detail slot.
pub struct State {
    metas: MetaTable,
    last_updated_at: Option<u64>,
    temporality: Temporality,
    tasks_state: TasksState,
    resources_state: ResourcesState,
    current_task_details: Option<Details>,
    retain_for: Option<u64>,
    strings: Strings,
}

/// The metadata batch an update carries, or nothing.
pub open spec fn meta_batch(u: Update) -> Seq<NewMetadata> {
    match u.new_metadata {
        Option::Some(b) => b@,
        Option::None => Seq::empty(),
    }
}

/// The task deltas an update carries, or nothing.
pub open spec fn task_deltas(u: Update) -> Seq<EntityDelta> {
    match u.task_update {
        Option::Some(t) => t.tasks@,
        Option::None => Seq::empty(),
    }
}

/// The resource deltas an update carries, or nothing.
pub open spec fn resource_deltas(u: Update) -> Seq<EntityDelta> {
    match u.resource_update {
        Option::Some(r) => r.resources@,
        Option::None => Seq::empty(),
    }
}

impl State {
    pub closed spec fn last_updated_spec(&self) -> Option<u64> {
        self.last_updated_at
    }

    pub closed spec fn retain_for_spec(&self) -> Option<u64> {
        self.retain_for
    }

    pub closed spec fn paused_spec(&self) -> bool {
        self.temporality is Paused
    }

    pub closed spec fn metas_models(&self) -> Seq<MetaModel> {
        self.metas.models()
    }

    pub closed spec fn tasks_records(&self) -> Seq<EntityRecord> {
        self.tasks_state.entities.records()
    }

    pub closed spec fn resources_records(&self) -> Seq<EntityRecord> {
        self.resources_state.entities.records()
    }

    pub open spec fn tasks_models(&self) -> Seq<EntityModel> {
        cores(self.tasks_records())
    }

    pub open spec fn resources_models(&self) -> Seq<EntityModel> {
        cores(self.resources_records())
    }

    pub closed spec fn strings_view(&self) -> Seq<crate::intern::PoolEntry> {
        self.strings@
    }

    pub closed spec fn details_spec(&self) -> Option<(u64, bool)> {
        match self.current_task_details {
            Option::Some(d) => Option::Some(d.model()),
            Option::None => Option::None,
        }
    }

    pub closed spec fn linters_spec(&self) -> Seq<Seq<char>> {
        Seq::new(self.tasks_state.linters@.len(), |i: int| self.tasks_state.linters@[i].name@)
    }

    pub closed spec fn wf(&self) -> bool {
        &&& self.metas.wf()
        &&& self.tasks_state.entities.wf()
        &&& self.resources_state.entities.wf()
        &&& self.strings.wf()
    }

    /// Everything an update batch does not touch.
    pub open spec fn config_unchanged(s0: &State, s1: &State) -> bool {
        &&& s1.paused_spec() == s0.paused_spec()
        &&& s1.retain_for_spec() == s0.retain_for_spec()
        &&& s1.details_spec() == s0.details_spec()
        &&& s1.linters_spec() == s0.linters_spec()
    }

    /// Sets the retention window, builder-style.
    pub fn with_retain_for(self, retain_for: Option<u64>) -> (r: State)
        ensures
            r.retain_for_spec() == retain_for,
            r.last_updated_spec() == self.last_updated_spec(),
            r.paused_spec() == self.paused_spec(),
            r.details_spec() == self.details_spec(),
            r.linters_spec() == self.linters_spec(),
            r.metas_models() == self.metas_models(),
            r.tasks_records() == self.tasks_records(),
            r.resources_records() == self.resources_records(),
            r.strings_view() == self.strings_view(),
            r.wf() == self.wf(),
    {
        State { retain_for, ..self }
    }

    /// Adds lint rules for the tasks substate, builder-style.
    pub fn with_task_linters(self, linters: Vec<Linter>) -> (r: State)
        ensures
            r.linters_spec() =~= self.linters_spec() + Seq::new(
                linters@.len(),
                |i: int| linters@[i].name@,
            ),
            r.retain_for_spec() == self.retain_for_spec(),
            r.last_updated_spec() == self.last_updated_spec(),
            r.paused_spec() == self.paused_spec(),
            r.details_spec() == self.details_spec(),
            r.metas_models() == self.metas_models(),
            r.tasks_records() == self.tasks_records(),
            r.resources_records() == self.resources_records(),
            r.strings_view() == self.strings_view(),
            r.wf() == self.wf(),
    {
        let mut s = self;
        let mut linters = linters;
        s.tasks_state.linters.append(&mut linters);
        s
    }

    /// The producer timestamp of the last update, the engine's clock.
    pub fn last_updated_at(&self) -> (r: Option<u64>)
        ensures
            r == self.last_updated_spec(),
    {
        self.last_updated_at
    }

    /// Looks a task up by its stable identifier; a miss is a valid,
    /// non-exceptional outcome.
    pub fn task(&self, id: u64) -> (r: Option<&Entity>)
        requires
            self.wf(),
        ensures
            match r {
                Some(e) => entity_has_id(self.tasks_models(), id) && e.record() == self
                    .tasks_records()[entity_index(self.tasks_models(), id)] && e.id == id,
                None => !entity_has_id(self.tasks_models(), id),
            },
    {
        self.tasks_state.entities.entity(id)
    }

    /// The tasks substate, for rendering.
    pub fn tasks_state(&self) -> (r: &TasksState)
        ensures
            r.entities.records() == self.tasks_records(),
            r.linters@.len() == self.linters_spec().len(),
    {
        &self.tasks_state
    }

    /// The resources substate, for rendering.
    pub fn resources_state(&self) -> (r: &ResourcesState)
        ensures
            r.entities.records() == self.resources_records(),
    {
        &self.resources_state
    }

    /// The display rows of every task, in storage order; a task without
    /// computed rows contributes an empty row list.
    pub fn formatted_rows_of_tasks(&self) -> (rows: Vec<Vec<String>>)
        ensures
            rows@.len() == self.tasks_records().len(),
            forall|i: int|
                0 <= i < rows@.len() ==> rows@[i].deep_view() == rendered_rows(
                    #[trigger] self.tasks_records()[i],
                ),
    {
        formatted_rows_of(&self.tasks_state.entities)
    }

    /// The display rows of every resource, in storage order.
    pub fn formatted_rows_of_resources(&self) -> (rows: Vec<Vec<String>>)
        ensures
            rows@.len() == self.resources_records().len(),
            forall|i: int|
                0 <= i < rows@.len() ==> rows@[i].deep_view() == rendered_rows(
                    #[trigger] self.resources_records()[i],
                ),
    {
        formatted_rows_of(&self.resources_state.entities)
    }

    /// Whether `text` is currently retrievable from the interning pool.
    pub fn is_interned(&self, text: &String) -> (b: bool)
        requires
            self.wf(),
        ensures
            b == crate::intern::view_has_text(self.strings_view(), text@),
    {
        self.strings.contains_text(text)
    }

    /// The shared detail slot for the currently focused task.
    pub fn task_details_ref(&self) -> (r: &Option<Details>)
        ensures
            match r {
                Some(d) => self.details_spec() == Some(d.model()),
                None => self.details_spec() is None,
            },
    {
        &self.current_task_details
    }

    /// Merges one update batch: the timestamp is recorded first, then new
    /// metadata is ingested (so deltas in the same batch can reference it),
    /// then task and resource deltas are applied, with presentation work
    /// gated on which list the current screen shows.
    pub fn update(&mut self, current_view: &ViewState, update: Update)
        requires
            old(self).wf(),
        ensures
            final(self).wf(),
            final(self).last_updated_spec() == if update.now is Some {
                update.now
            } else {
                old(self).last_updated_spec()
            },
            final(self).metas_models() == ingest_metas_model(
                old(self).metas_models(),
                meta_batch(update),
            ),
            final(self).tasks_models() == apply_deltas_model(
                old(self).tasks_models(),
                task_deltas(update),
                final(self).metas_models(),
                final(self).last_updated_spec(),
            ),
            final(self).resources_models() == apply_deltas_model(
                old(self).resources_models(),
                resource_deltas(update),
                final(self).metas_models(),
                final(self).last_updated_spec(),
            ),
            presentation_ok(
                old(self).tasks_records(),
                final(self).tasks_records(),
                task_deltas(update),
                final(self).metas_models(),
                current_view is TasksList,
            ),
            presentation_ok(
                old(self).resources_records(),
                final(self).resources_records(),
                resource_deltas(update),
                final(self).metas_models(),
                current_view is ResourcesList,
            ),
            State::config_unchanged(old(self), final(self)),
            pool_extends(old(self).strings_view(), final(self).strings_view()),
    {
        if let Some(now) = update.now {
            self.last_updated_at = Some(now);
        }
        let ghost u = update;
        if let Some(batch) = update.new_metadata {
            let ghost b_all = batch@;
            let ghost ms0 = self.metas.models();
            let ghost p0 = self.strings@;
            let ghost lu = self.last_updated_at;
            let mut batch = batch;
            let ghost mut k: int = 0;
            proof {
                assert(b_all.take(0) =~= Seq::<NewMetadata>::empty());
                assert(batch@ =~= b_all.skip(0));
            }
            while batch.len() > 0
                invariant
                    self.metas.wf(),
                    self.strings.wf(),
                    self.tasks_state.entities.wf(),
                    self.resources_state.entities.wf(),
                    0 <= k <= b_all.len(),
                    batch@ =~= b_all.skip(k),
                    pool_extends(p0, self.strings@),
                    self.metas.models() == ingest_metas_model(ms0, b_all.take(k)),
                    self.tasks_state.entities.records() == old(self).tasks_records(),
                    self.resources_state.entities.records() == old(self).resources_records(),
                    self.tasks_state.linters@ == old(self).tasks_state.linters@,
                    self.last_updated_at == lu,
                    self.retain_for == old(self).retain_for_spec(),
                    self.paused_spec() == old(self).paused_spec(),
                    self.details_spec() == old(self).details_spec(),
                decreases batch@.len(),
            {
                let nm = batch.remove(0);
                proof {
                    assert(nm == b_all[k]);
                    assert(b_all.take(k + 1).drop_last() =~= b_all.take(k));
                    assert(b_all.take(k + 1).last() == nm);
                    assert(batch@ =~= b_all.skip(k + 1));
                }
                let ghost nm_ghost = nm;
                let ghost pm = self.strings@;
                if let Some(id) = nm.id {
                    if let Some(pb) = nm.metadata {
                        let ghost pb_ghost = pb;
                        let m = Metadata::from_proto(pb, id, &mut self.strings);
                        proof {
                            assert(m.model() == wire_meta_model(id, pb_ghost));
                            crate::intern::lemma_pool_extends_trans(p0, pm, self.strings@);
                        }
                        self.metas.insert(m);
                    }
                }
                proof {
                    k = k + 1;
                }
            }
            proof {
                assert(b_all.take(b_all.len() as int) =~= b_all);
            }
        }
        proof {
            assert(self.metas.models() == ingest_metas_model(
                old(self).metas_models(),
                meta_batch(u),
            ));
        }
        if let Some(tasks_update) = update.task_update {
            let visibility = if matches!(current_view, ViewState::TasksList) {
                Visibility::Show
            } else {
                Visibility::Hide
            };
            self.tasks_state.update_tasks(
                &mut self.strings,
                &self.metas,
                tasks_update,
                visibility,
                self.last_updated_at,
            );
        } else {
            proof {
                assert(presentation_ok(
                    old(self).tasks_records(),
                    self.tasks_state.entities.records(),
                    task_deltas(u),
                    self.metas.models(),
                    current_view is TasksList,
                ));
            }
        }
        if let Some(resources_update) = update.resource_update {
            let visibility = if matches!(current_view, ViewState::ResourcesList) {
                Visibility::Show
            } else {
                Visibility::Hide
            };
            self.resources_state.update_resources(
                &mut self.strings,
                &self.metas,
                resources_update,
                visibility,
                self.last_updated_at,
            );
        } else {
            proof {
                assert(presentation_ok(
                    old(self).resources_records(),
                    self.resources_state.entities.records(),
                    resource_deltas(u),
                    self.metas.models(),
                    current_view is ResourcesList,
                ));
            }
        }
    }

    /// Runs one retention pass: a no-op while paused; otherwise, when both a
    /// clock and a window are configured, each substate drops entities older
    /// than the window, and in every unpaused case the interning pool is
    /// swept afterwards — dropped entities have already released their
    /// strings, so sweeping after the drop is safe and sufficient.
    pub fn retain_active(&mut self)
        requires
            old(self).wf(),
        ensures
            final(self).wf(),
            retention_relates(old(self), final(self)),
    {
        if self.is_paused() {
            return;
        }
        let ghost p0 = self.strings@;
        if self.last_updated_at.is_some() && self.retain_for.is_some() {
            let now = self.last_updated_at.unwrap();
            let retain_for = self.retain_for.unwrap();
            let ghost pa = self.strings@;
            self.tasks_state.retain_active(&mut self.strings, now, retain_for);
            let ghost pb = self.strings@;
            self.resources_state.retain_active(&mut self.strings, now, retain_for);
            proof {
                crate::intern::lemma_pool_releases_only_trans(pa, pb, self.strings@);
            }
        }
        let ghost q = self.strings@;
        self.strings.sweep();
        proof {
            assert(pool_releases_only(p0, q));
            assert(self.strings@ == crate::intern::sweep_model(q));
        }
    }

    /// Installs the detail record for the task a detail response names,
    /// replacing whatever was there; an undecodable histogram blob is
    /// swallowed — the record is installed with no histogram.  A response
    /// without a task identifier changes nothing.
    pub fn update_task_details(&mut self, update: TaskDetails)
        requires
            old(self).wf(),
        ensures
            final(self).wf(),
            update.task_id is None ==> final(self).details_spec() == old(self).details_spec(),
            update.task_id matches Some(id) ==> final(self).details_spec() == Some(
                (
                    id,
                    update.poll_times_histogram matches Some(data) && histogram_bytes_ok(data@),
                ),
            ),
            final(self).last_updated_spec() == old(self).last_updated_spec(),
            final(self).paused_spec() == old(self).paused_spec(),
            final(self).retain_for_spec() == old(self).retain_for_spec(),
            final(self).metas_models() == old(self).metas_models(),
            final(self).tasks_records() == old(self).tasks_records(),
            final(self).resources_records() == old(self).resources_records(),
            final(self).strings_view() == old(self).strings_view(),
    {
        if let Some(id) = update.task_id {
            let hist = match update.poll_times_histogram {
                Some(data) => deserialize_histogram(&data),
                None => None,
            };
            self.current_task_details = Some(Details { task_id: id, poll_times_histogram: hist });
        }
    }

    /// Clears the shared detail slot unconditionally.
    pub fn unset_task_details(&mut self)
        ensures
            final(self).details_spec() is None,
            final(self).last_updated_spec() == old(self).last_updated_spec(),
            final(self).paused_spec() == old(self).paused_spec(),
            final(self).retain_for_spec() == old(self).retain_for_spec(),
            final(self).metas_models() == old(self).metas_models(),
            final(self).tasks_records() == old(self).tasks_records(),
            final(self).resources_records() == old(self).resources_records(),
            final(self).strings_view() == old(self).strings_view(),
            final(self).wf() == old(self).wf(),
    {
        self.current_task_details = None;
    }

    /// Stops retention until `resume`; already-computed state is untouched.
    pub fn pause(&mut self)
        ensures
            final(self).paused_spec(),
            final(self).last_updated_spec() == old(self).last_updated_spec(),
            final(self).retain_for_spec() == old(self).retain_for_spec(),
            final(self).details_spec() == old(self).details_spec(),
            final(self).metas_models() == old(self).metas_models(),
            final(self).tasks_records() == old(self).tasks_records(),
            final(self).resources_records() == old(self).resources_records(),
            final(self).strings_view() == old(self).strings_view(),
            final(self).wf() == old(self).wf(),
    {
        self.temporality = Temporality::Paused;
    }

    /// Lets retention run again.
    pub fn resume(&mut self)
        ensures
            !final(self).paused_spec(),
            final(self).last_updated_spec() == old(self).last_updated_spec(),
            final(self).retain_for_spec() == old(self).retain_for_spec(),
            final(self).details_spec() == old(self).details_spec(),
            final(self).metas_models() == old(self).metas_models(),
            final(self).tasks_records() == old(self).tasks_records(),
            final(self).resources_records() == old(self).resources_records(),
            final(self).strings_view() == old(self).strings_view(),
            final(self).wf() == old(self).wf(),
    {
        self.temporality = Temporality::Live;
    }

    /// Whether retention is currently suspended.
    pub fn is_paused(&self) -> (r: bool)
        ensures
            r == self.paused_spec(),
    {
        matches!(self.temporality, Temporality::Paused)
    }
}

impl Default for Temporality {
    /// The engine starts live: retention runs until it is paused.
    fn default() -> (t: Temporality)
        ensures
            t is Live,
    {
        Temporality::Live
    }
}

impl Default for State {
    /// An empty engine: no metadata, no entities, no clock, no retention
    /// window, live, with an empty detail slot and an empty pool.
    fn default() -> (s: State)
        ensures
            s.wf(),
            s.last_updated_spec() is None,
            s.retain_for_spec() is None,
            !s.paused_spec(),
            s.details_spec() is None,
            s.metas_models() =~= Seq::<MetaModel>::empty(),
            s.tasks_records() =~= Seq::<EntityRecord>::empty(),
            s.resources_records() =~= Seq::<EntityRecord>::empty(),
            s.strings_view() =~= Seq::<crate::intern::PoolEntry>::empty(),
            s.linters_spec() =~= Seq::<Seq<char>>::empty(),
    {
        State {
            metas: MetaTable::new(),
            last_updated_at: None,
            temporality: Temporality::Live,
            tasks_state: TasksState::new(),
            resources_state: ResourcesState::new(),
            current_task_details: None,
            retain_for: None,
            strings: Strings::new(),
        }
    }
}

/// How a retention pass relates the engine before and after: a no-op while
/// paused; otherwise both substates filtered by the window (where clock and
/// window exist), and the pool swept of unreferenced strings after the
/// substates released theirs.
pub open spec fn retention_relates(s0: &State, s1: &State) -> bool {
    &&& s1.metas_models() == s0.metas_models()
    &&& s1.last_updated_spec() == s0.last_updated_spec()
    &&& s1.retain_for_spec() == s0.retain_for_spec()
    &&& s1.paused_spec() == s0.paused_spec()
    &&& s1.details_spec() == s0.details_spec()
    &&& s0.paused_spec() ==> s1.tasks_records() == s0.tasks_records()
        && s1.resources_records() == s0.resources_records() && s1.strings_view()
        == s0.strings_view()
    &&& !s0.paused_spec() ==> {
        &&& match (s0.last_updated_spec(), s0.retain_for_spec()) {
            (Option::Some(now), Option::Some(d)) => s1.tasks_records() == s0.tasks_records()
                .filter(|r: EntityRecord| entity_kept(r.core, now, d)) && s1.resources_records()
                == s0.resources_records().filter(
                |r: EntityRecord| entity_kept(r.core, now, d),
            ),
            _ => s1.tasks_records() == s0.tasks_records() && s1.resources_records()
                == s0.resources_records(),
        }
        &&& exists|q: Seq<crate::intern::PoolEntry>|
            pool_releases_only(s0.strings_view(), q) && s1.strings_view()
                == crate::intern::sweep_model(q)
    }
}

/// The rows a record contributes to a rendered list: its computed display
/// rows, or nothing when none were computed.
pub open spec fn rendered_rows(r: EntityRecord) -> Seq<Seq<char>> {
    match r.formatted {
        Option::Some(rows) => rows,
        Option::None => Seq::empty(),
    }
}

/// What the detail screen for task `id` renders: the task's display rows if
/// it is still live and has computed rows, nothing otherwise.
pub open spec fn instance_rows(tasks: Seq<EntityRecord>, id: u64) -> Seq<Seq<Seq<char>>> {
    if entity_has_id(cores(tasks), id) {
        match tasks[entity_index(cores(tasks), id)].formatted {
            Option::Some(rows) => seq![rows],
            Option::None => Seq::empty(),
        }
    } else {
        Seq::empty()
    }
}

fn formatted_rows_of(list: &EntityList) -> (rows: Vec<Vec<String>>)
    ensures
        rows@.len() == list.records().len(),
        forall|i: int|
            0 <= i < rows@.len() ==> rows@[i].deep_view() == rendered_rows(
                #[trigger] list.records()[i],
            ),
{
    let n = list.len();
    let mut rows: Vec<Vec<String>> = Vec::new();
    let mut i: usize = 0;
    while i < n
        invariant
            0 <= i <= n,
            n == list.records().len(),
            rows@.len() == i,
            forall|k: int|
                0 <= k < i ==> rows@[k].deep_view() == rendered_rows(
                    #[trigger] list.records()[k],
                ),
        decreases n - i,
    {
        let e = list.entity_at(i);
        match e.formatted_rows() {
            Some(r) => rows.push(r),
            None => {
                let empty: Vec<String> = Vec::new();
                proof {
                    assert(empty.deep_view() =~= Seq::<Seq<char>>::empty());
                }
                rows.push(empty);
            },
        }
        i += 1;
    }
    rows
}

impl Entity {
    /// A copy of this entity's computed display rows, if any.
    pub fn formatted_rows(&self) -> (r: Option<Vec<String>>)
        ensures
            match r {
                Some(rows) => self.record().formatted == Some(rows.deep_view()),
                None => self.record().formatted is None,
            },
    {
        match &self.formatted {
            Some(rows) => {
                let d = duplicate_rows(rows);
                proof {
                    assert(d.deep_view() =~= rows.deep_view());
                }
                Some(d)
            },
            None => None,
        }
    }
}


} // verus!
