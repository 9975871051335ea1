//! The writable in-memory layer: an ordered buffer of page versions from
//! `start_lsn` on, frozen on demand and then written out as one delta layer.
use vstd::prelude::*;
use crate::value::{
    Key, Lsn, PageVersion, Value, ValueReconstructResult, ValueReconstructState, StateModel,
    VersionModel, version_lt, versions_sorted, versions_view,
};
use crate::layer::{HistoricLayer, LayerModel, scan_versions, collect_versions};

verus! {

/// Largest key that a layer can hold: key ranges are half-open, so the key
/// after the largest stored key must exist.
pub const MAX_STORED_KEY: u128 = 0xffff_ffff_ffff_ffff_ffff_ffff_ffff_fffe;

/// Model of an in-memory layer.
pub struct InMemoryModel {
    pub start_lsn: Lsn,
    pub end_lsn: Option<Lsn>,
    pub versions: Seq<VersionModel>,
    pub tombstones: Seq<(Key, Key, Lsn)>,
    pub size: u64,
    pub relsizes: Seq<(Lsn, u32)>,
}

pub struct InMemoryLayer {
    /// First LSN (inclusive) that this layer holds.
    pub start_lsn: Lsn,
    /// Set when frozen: the exclusive upper bound of the layer's LSNs.
    pub end_lsn: Option<Lsn>,
    /// All page versions, strictly ascending by `(key, lsn)`.
    pub versions: Vec<PageVersion>,
    /// Range deletions: `[start, end)` deleted at an LSN.
    pub tombstones: Vec<(Key, Key, Lsn)>,
    /// Bytes of values put into the layer (saturating).
    pub size: u64,
    /// Relation size in blocks from an LSN on, strictly ascending by LSN.
    pub relsizes: Vec<(Lsn, u32)>,
}

impl View for InMemoryLayer {
    type V = InMemoryModel;

    open spec fn view(&self) -> InMemoryModel {
        InMemoryModel {
            start_lsn: self.start_lsn,
            end_lsn: self.end_lsn,
            versions: versions_view(self.versions@),
            tombstones: self.tombstones@,
            size: self.size,
            relsizes: self.relsizes@,
        }
    }
}

/// The state of a layer that holds its versions in order.
pub open spec fn inmem_wf(m: InMemoryModel) -> bool {
    versions_sorted(m.versions)
}

/// The exclusive upper LSN of an in-memory layer: its freeze point, or none yet.
pub open spec fn inmem_end(m: InMemoryModel) -> Lsn {
    match m.end_lsn {
        Some(e) => e,
        None => u64::MAX,
    }
}

/// `vs2` is `vs` with `nv` put in: inserted at its place in key-then-LSN
/// order, or replacing the version at the same `(key, lsn)`.
pub open spec fn put_into(vs: Seq<VersionModel>, nv: VersionModel, vs2: Seq<VersionModel>) -> bool {
    exists|p: int| 0 <= p <= vs.len() && {
        ||| (vs2 == vs.insert(p, nv)
            && (forall|i: int| 0 <= i < p ==> version_lt(#[trigger] vs[i], nv))
            && (forall|i: int| p <= i < vs.len() ==> version_lt(nv, #[trigger] vs[i])))
        ||| (p < vs.len() && vs[p].0 == nv.0 && vs[p].1 == nv.1 && vs2 == vs.update(p, nv))
    }
}

/// Entries strictly ascending by LSN.
pub open spec fn relsizes_sorted(rs: Seq<(Lsn, u32)>) -> bool {
    forall|i: int, j: int| 0 <= i < j < rs.len() ==> (#[trigger] rs[i]).0 < (#[trigger] rs[j]).0
}

/// The size recorded by the last entry of `rs[..n]` at or below `lsn`.
pub open spec fn relsize_at(rs: Seq<(Lsn, u32)>, n: int, lsn: Lsn) -> Option<u32>
    decreases n,
{
    if n <= 0 {
        None
    } else if rs[n - 1].0 <= lsn {
        Some(rs[n - 1].1)
    } else {
        relsize_at(rs, n - 1, lsn)
    }
}

/// `rs2` is `rs` with `(lsn, size)` put in at its place, replacing an entry at the same LSN.
pub open spec fn relsize_put(rs: Seq<(Lsn, u32)>, lsn: Lsn, size: u32, rs2: Seq<(Lsn, u32)>) -> bool {
    exists|p: int| 0 <= p <= rs.len() && {
        ||| (rs2 == rs.insert(p, (lsn, size))
            && (forall|i: int| 0 <= i < p ==> (#[trigger] rs[i]).0 < lsn)
            && (forall|i: int| p <= i < rs.len() ==> lsn < (#[trigger] rs[i]).0))
        ||| (p < rs.len() && rs[p].0 == lsn && rs2 == rs.update(p, (lsn, size)))
    }
}

/// Version `v` is the last image that `images` gives for its key.
pub open spec fn image_given(images: Seq<(Key, Vec<u8>)>, v: VersionModel) -> bool {
    exists|i: int| 0 <= i < images.len() && (#[trigger] images[i]).0 == v.0 && v.2 == crate::value::ValueModel::Image(images[i].1@)
        && forall|j: int| i < j < images.len() ==> (#[trigger] images[j]).0 != v.0
}

/// Some version in `vs` is of key `k`.
pub open spec fn holds_key(vs: Seq<VersionModel>, k: Key) -> bool {
    exists|j: int| 0 <= j < vs.len() && #[trigger] vs[j].0 == k
}

/// Byte length of a value's payload.
pub open spec fn value_len(v: crate::value::ValueModel) -> nat {
    match v {
        crate::value::ValueModel::Image(b) => b.len(),
        crate::value::ValueModel::Record(_, r) => r.len(),
    }
}

/// `a + b`, or `u64::MAX` where that does not fit.
pub open spec fn saturating_add_spec(a: u64, b: nat) -> u64 {
    if a + b > u64::MAX { u64::MAX } else { (a + b) as u64 }
}

impl InMemoryLayer {
    /// A new, empty layer that holds versions from `start_lsn` on.
    pub fn create(start_lsn: Lsn) -> (r: InMemoryLayer)
        ensures
            r@ == (InMemoryModel { start_lsn, end_lsn: None, versions: Seq::empty(), tombstones: Seq::empty(), size: 0, relsizes: Seq::empty() }),
            inmem_wf(r@),
    {
        let r = InMemoryLayer { start_lsn, end_lsn: None, versions: Vec::new(), tombstones: Vec::new(), size: 0, relsizes: Vec::new() };
        assert(r@.versions =~= Seq::<VersionModel>::empty());
        r
    }

    /// Whether the layer has been frozen.
    pub fn is_frozen(&self) -> (r: bool)
        ensures
            r == self.end_lsn.is_some(),
    {
        self.end_lsn.is_some()
    }

    /// First LSN of the layer.
    pub fn get_start_lsn(&self) -> (r: Lsn)
        ensures
            r == self.start_lsn,
    {
        self.start_lsn
    }

    /// Exclusive end LSN: the freeze point, or `u64::MAX` while the layer is open.
    pub fn get_end_lsn(&self) -> (r: Lsn)
        ensures
            r == inmem_end(self@),
    {
        match self.end_lsn {
            Some(e) => e,
            None => u64::MAX,
        }
    }

    /// Bytes of values put into the layer.
    pub fn size(&self) -> (r: u64)
        ensures
            r == self.size,
    {
        self.size
    }

    /// Puts `value` at `(key, lsn)`; a value already there is replaced.
    pub fn put_value(&mut self, key: Key, lsn: Lsn, value: Value)
        requires
            inmem_wf(old(self)@),
        ensures
            inmem_wf(final(self)@),
            put_into(old(self)@.versions, (key, lsn, value@), final(self)@.versions),
            final(self)@.start_lsn == old(self)@.start_lsn,
            final(self)@.end_lsn == old(self)@.end_lsn,
            final(self)@.tombstones == old(self)@.tombstones,
            final(self)@.relsizes == old(self)@.relsizes,
            final(self)@.size == saturating_add_spec(old(self)@.size, value_len(value@)),
    {
        let len: usize = match &value {
            Value::Image(b) => b.len(),
            Value::WalRecord(r) => r.rec.len(),
        };
        self.size = if len as u64 > u64::MAX - self.size { u64::MAX } else { self.size + len as u64 };
        let ghost old_vs = versions_view(self.versions@);
        let ghost nv: VersionModel = (key, lsn, value@);
        let mut p: usize = 0;
        while p < self.versions.len() && (self.versions[p].key < key || (self.versions[p].key == key && self.versions[p].lsn < lsn))
            invariant
                nv == (key, lsn, value@),
                p <= self.versions@.len(),
                old_vs == versions_view(self.versions@),
                versions_sorted(old_vs),
                forall|i: int| 0 <= i < p ==> version_lt(#[trigger] old_vs[i], nv),
            decreases self.versions@.len() - p,
        {
            assert(old_vs[p as int] == self.versions@[p as int]@);
            p = p + 1;
        }
        let pv = PageVersion { key, lsn, value };
        if p < self.versions.len() && self.versions[p].key == key && self.versions[p].lsn == lsn {
            self.versions.set(p, pv);
            assert(versions_view(self.versions@) =~= old_vs.update(p as int, nv));
            assert(versions_sorted(versions_view(self.versions@))) by {
                let nvs = versions_view(self.versions@);
                assert forall|i: int, j: int| 0 <= i < j < nvs.len() implies version_lt(#[trigger] nvs[i], #[trigger] nvs[j]) by {
                    assert(version_lt(old_vs[i], old_vs[j]));
                }
            }
        } else {
            if p < self.versions.len() {
                assert(old_vs[p as int] == self.versions@[p as int]@);
            }
            assert forall|i: int| p <= i < old_vs.len() implies version_lt(nv, #[trigger] old_vs[i]) by {
                assert(version_lt(nv, old_vs[p as int]));
                if i > p {
                    assert(version_lt(old_vs[p as int], old_vs[i]));
                }
            }
            self.versions.insert(p, pv);
            assert(versions_view(self.versions@) =~= old_vs.insert(p as int, nv));
            assert(versions_sorted(versions_view(self.versions@))) by {
                let nvs = versions_view(self.versions@);
                assert forall|i: int, j: int| 0 <= i < j < nvs.len() implies version_lt(#[trigger] nvs[i], #[trigger] nvs[j]) by {
                    if j < p {
                        assert(version_lt(old_vs[i], old_vs[j]));
                    } else if j == p {
                    } else if i < p {
                        assert(version_lt(old_vs[i], nv));
                        assert(version_lt(nv, old_vs[j - 1]));
                    } else if i == p {
                    } else {
                        assert(version_lt(old_vs[i - 1], old_vs[j - 1]));
                    }
                }
            }
        }
    }

    /// A new layer starting at `lsn` that holds the given page images, all at
    /// `lsn`: a snapshot of pages taken from elsewhere. A key given twice keeps
    /// its last image.
    pub fn copy_snapshot(images: Vec<(Key, Vec<u8>)>, relsize: u32, lsn: Lsn) -> (r: InMemoryLayer)
        ensures
            inmem_wf(r@),
            r@.start_lsn == lsn,
            r@.end_lsn.is_none(),
            r@.tombstones.len() == 0,
            r@.relsizes == seq![(lsn, relsize)],
            r@.versions.len() <= images@.len(),
            forall|i: int| 0 <= i < r@.versions.len() ==> (#[trigger] r@.versions[i]).1 == lsn && r@.versions[i].2 is Image,
            forall|i: int| 0 <= i < images@.len() ==> holds_key(r@.versions, (#[trigger] images@[i]).0),
            forall|j: int| 0 <= j < r@.versions.len() ==> #[trigger] image_given(images@, r@.versions[j]),
    {
        let mut layer = InMemoryLayer::create(lsn);
        let mut rest = images;
        let ghost all = rest@;
        let ghost mut t: int = 0;
        assert(rest@ =~= all.skip(0));
        while rest.len() > 0
            invariant
                inmem_wf(layer@),
                layer@.start_lsn == lsn,
                layer@.end_lsn.is_none(),
                layer@.tombstones.len() == 0,
                layer@.relsizes.len() == 0,
                0 <= t <= all.len(),
                all == images@,
                rest@ == all.skip(t),
                layer@.versions.len() <= t,
                forall|i: int| 0 <= i < layer@.versions.len() ==> (#[trigger] layer@.versions[i]).1 == lsn && layer@.versions[i].2 is Image,
                forall|i: int| 0 <= i < t ==> holds_key(layer@.versions, (#[trigger] all[i]).0),
                forall|j: int| 0 <= j < layer@.versions.len() ==> #[trigger] image_given(all.take(t), layer@.versions[j]),
            decreases rest@.len(),
        {
            let ghost before = layer@.versions;
            let (key, img) = rest.remove(0);
            assert(all[t] == (key, img)) by {
                assert(all.skip(t)[0] == all[t]);
            }
            layer.put_value(key, lsn, Value::Image(img));
            let ghost after = layer@.versions;
            let ghost nv: VersionModel = (key, lsn, crate::value::ValueModel::Image(all[t].1@));
            proof {
                let p = choose|p: int| 0 <= p <= before.len() && {
                    ||| (after == before.insert(p, nv)
                        && (forall|i: int| 0 <= i < p ==> version_lt(#[trigger] before[i], nv))
                        && (forall|i: int| p <= i < before.len() ==> version_lt(nv, #[trigger] before[i])))
                    ||| (p < before.len() && before[p].0 == nv.0 && before[p].1 == nv.1 && after == before.update(p, nv))
                };
                assert(after[p] == nv);
                assert forall|i: int| 0 <= i < after.len() implies (#[trigger] after[i]).1 == lsn && after[i].2 is Image by {
                    if after == before.insert(p, nv) {
                        if i < p { assert(after[i] == before[i]); } else if i > p { assert(after[i] == before[i - 1]); }
                    } else {
                        if i != p { assert(after[i] == before[i]); }
                    }
                }
                assert forall|j: int| 0 <= j < after.len() implies #[trigger] image_given(all.take(t + 1), after[j]) by {
                    let src = if after == before.insert(p, nv) {
                        if j < p { j } else if j > p { j - 1 } else { -1 }
                    } else {
                        if j != p { j } else { -1 }
                    };
                    if src == -1 {
                        assert(after[j] == nv);
                        assert(all.take(t + 1)[t] == all[t]);
                    } else {
                        assert(after[j] == before[src]);
                        assert(image_given(all.take(t), before[src]));
                        let w = choose|w: int| 0 <= w < all.take(t).len() && (#[trigger] all.take(t)[w]).0 == before[src].0
                            && before[src].2 == crate::value::ValueModel::Image(all.take(t)[w].1@)
                            && forall|q: int| w < q < all.take(t).len() ==> (#[trigger] all.take(t)[q]).0 != before[src].0;
                        assert(all.take(t + 1)[w] == all.take(t)[w]);
                        assert(j != p);
                        if j < p { assert(version_lt(after[j], after[p])); } else { assert(version_lt(after[p], after[j])); }
                        assert(after[j].0 != key);
                        assert forall|q: int| w < q < all.take(t + 1).len() implies (#[trigger] all.take(t + 1)[q]).0 != before[src].0 by {
                            if q < t { assert(all.take(t + 1)[q] == all.take(t)[q]); } else { assert(all.take(t + 1)[q] == all[t]); }
                        }
                    }
                }
                assert forall|i: int| 0 <= i < t + 1 implies holds_key(after, (#[trigger] all[i]).0) by {
                    if i == t {
                        assert(after[p].0 == all[i].0);
                    } else {
                        assert(holds_key(before, all[i].0));
                        let j = choose|j: int| 0 <= j < before.len() && #[trigger] before[j].0 == all[i].0;
                        if after == before.insert(p, nv) {
                            if j < p { assert(after[j] == before[j]); } else { assert(after[j + 1] == before[j]); }
                        } else {
                            if j != p { assert(after[j] == before[j]); } else { assert(after[p].0 == before[p].0); }
                        }
                    }
                }
                t = t + 1;
            }
            assert(rest@ =~= all.skip(t));
        }
        assert(all.skip(t).len() == 0);
        assert(t == all.len());
        assert forall|i: int| 0 <= i < images@.len() implies holds_key(layer@.versions, (#[trigger] images@[i]).0) by {
            assert(images@[i] == all[i]);
        }
        assert(all.take(t) =~= images@);
        let ghost vs = layer@;
        layer.put_truncation(lsn, relsize);
        assert(layer@.relsizes =~= seq![(lsn, relsize)]);
        assert(layer@.versions == vs.versions);
        layer
    }

    /// The relation's size at `lsn`: the last size recorded at or below it.
    pub fn get_rel_size(&self, lsn: Lsn) -> (r: Option<u32>)
        ensures
            r == relsize_at(self.relsizes@, self.relsizes@.len() as int, lsn),
    {
        let mut n: usize = self.relsizes.len();
        while n > 0 && self.relsizes[n - 1].0 > lsn
            invariant
                n <= self.relsizes@.len(),
                relsize_at(self.relsizes@, self.relsizes@.len() as int, lsn) == relsize_at(self.relsizes@, n as int, lsn),
            decreases n,
        {
            n = n - 1;
        }
        if n > 0 {
            Some(self.relsizes[n - 1].1)
        } else {
            None
        }
    }

    /// Whether the relation exists at `lsn`: some size is recorded at or below it.
    pub fn get_rel_exists(&self, lsn: Lsn) -> (r: bool)
        ensures
            r == relsize_at(self.relsizes@, self.relsizes@.len() as int, lsn).is_some(),
    {
        self.get_rel_size(lsn).is_some()
    }

    /// Records that the relation has `relsize` blocks from `lsn` on.
    pub fn put_truncation(&mut self, lsn: Lsn, relsize: u32)
        requires
            relsizes_sorted(old(self).relsizes@),
        ensures
            relsizes_sorted(final(self).relsizes@),
            relsize_put(old(self).relsizes@, lsn, relsize, final(self).relsizes@),
            final(self)@ == (InMemoryModel { relsizes: final(self).relsizes@, ..old(self)@ }),
    {
        let ghost rs = self.relsizes@;
        let mut p: usize = 0;
        while p < self.relsizes.len() && self.relsizes[p].0 < lsn
            invariant
                p <= rs.len(),
                rs == self.relsizes@,
                relsizes_sorted(rs),
                forall|i: int| 0 <= i < p ==> (#[trigger] rs[i]).0 < lsn,
            decreases rs.len() - p,
        {
            p = p + 1;
        }
        if p < self.relsizes.len() && self.relsizes[p].0 == lsn {
            self.relsizes.set(p, (lsn, relsize));
            assert(self.relsizes@ == rs.update(p as int, (lsn, relsize)));
            assert(relsizes_sorted(self.relsizes@)) by {
                assert forall|i: int, j: int| 0 <= i < j < self.relsizes@.len() implies (#[trigger] self.relsizes@[i]).0 < (#[trigger] self.relsizes@[j]).0 by {
                    assert(rs[i].0 < rs[j].0);
                }
            }
        } else {
            assert forall|i: int| p <= i < rs.len() implies lsn < (#[trigger] rs[i]).0 by {
                if i > p {
                    assert(rs[p as int].0 < rs[i].0);
                }
            }
            self.relsizes.insert(p, (lsn, relsize));
            assert(self.relsizes@ == rs.insert(p as int, (lsn, relsize)));
            assert(relsizes_sorted(self.relsizes@)) by {
                let n = self.relsizes@;
                assert forall|i: int, j: int| 0 <= i < j < n.len() implies (#[trigger] n[i]).0 < (#[trigger] n[j]).0 by {
                    if j < p {
                        assert(rs[i].0 < rs[j].0);
                    } else if j == p {
                    } else if i < p {
                        assert(rs[i].0 < lsn);
                        assert(lsn < rs[j - 1].0);
                    } else if i == p {
                        assert(lsn < rs[j - 1].0);
                    } else {
                        assert(rs[i - 1].0 < rs[j - 1].0);
                    }
                }
            }
        }
    }

    /// Records that block `blknum` was written at `lsn`: where that lies past
    /// the relation's size there (0 when none is recorded), the size becomes `blknum + 1`.
    pub fn note_block_written(&mut self, lsn: Lsn, blknum: u32)
        requires
            relsizes_sorted(old(self).relsizes@),
            blknum < u32::MAX,
        ensures
            relsizes_sorted(final(self).relsizes@),
            final(self)@ == (InMemoryModel { relsizes: final(self).relsizes@, ..old(self)@ }),
            ({
                let old_size = match relsize_at(old(self).relsizes@, old(self).relsizes@.len() as int, lsn) {
                    Some(s) => s,
                    None => 0,
                };
                if blknum >= old_size {
                    relsize_put(old(self).relsizes@, lsn, (blknum + 1) as u32, final(self).relsizes@)
                } else {
                    final(self).relsizes@ == old(self).relsizes@
                }
            }),
    {
        let old_size = match self.get_rel_size(lsn) {
            Some(s) => s,
            None => 0,
        };
        if blknum >= old_size {
            self.put_truncation(lsn, blknum + 1);
        }
    }

    /// Records that `[key_start, key_end)` was deleted at `lsn`.
    pub fn put_tombstone(&mut self, key_start: Key, key_end: Key, lsn: Lsn)
        ensures
            final(self)@ == (InMemoryModel { tombstones: old(self)@.tombstones.push((key_start, key_end, lsn)), ..old(self)@ }),
    {
        self.tombstones.push((key_start, key_end, lsn));
    }

    /// Declares that no further writes come: `end_lsn` becomes the layer's
    /// exclusive upper bound. Freezing a frozen layer changes nothing.
    pub fn freeze(&mut self, end_lsn: Lsn)
        ensures
            final(self)@ == (InMemoryModel {
                end_lsn: match old(self)@.end_lsn {
                    Some(e) => Some(e),
                    None => Some(end_lsn),
                },
                ..old(self)@
            }),
    {
        if self.end_lsn.is_none() {
            self.end_lsn = Some(end_lsn);
        }
    }

    /// Adds to `state` what this layer holds for `key` over `[floor, cont)`,
    /// newest first, up to an image or an initializing record.
    pub fn get_value_reconstruct_data(&self, key: Key, floor: Lsn, cont: Lsn, state: &mut ValueReconstructState) -> (r: ValueReconstructResult)
        ensures
            ({
                let (st, complete) = scan_versions(self@.versions, self@.versions.len() as int, key, floor, cont, old(state)@);
                final(state)@ == st && r == (if complete { ValueReconstructResult::Complete } else { ValueReconstructResult::Continue })
            }),
    {
        if collect_versions(&self.versions, key, floor, cont, state) {
            ValueReconstructResult::Complete
        } else {
            ValueReconstructResult::Continue
        }
    }

    /// The level-0 delta layer that holds this frozen layer's versions, over
    /// `[first key, last key + 1) x [start_lsn, end_lsn)`.
    pub fn write_to_disk(self) -> (r: HistoricLayer)
        requires
            self.end_lsn.is_some(),
            self.versions@.len() > 0,
            self.versions@.last().key <= MAX_STORED_KEY,
        ensures
            r@ == (LayerModel {
                is_image: false,
                level0: true,
                key_range: (self@.versions[0].0, (self@.versions.last().0 + 1) as Key),
                lsn_range: (self.start_lsn, self.end_lsn.unwrap()),
                versions: self@.versions,
            }),
    {
        let key_start = self.versions[0].key;
        let key_end = self.versions[self.versions.len() - 1].key + 1;
        HistoricLayer {
            is_image: false,
            level0: true,
            key_start,
            key_end,
            lsn_start: self.start_lsn,
            lsn_end: self.end_lsn.unwrap(),
            versions: self.versions,
        }
    }
}

} // verus!

verus! {

/// A version at or above `cont` is skipped by a scan below `cont`: inserting one
/// anywhere leaves the scan's result as it was.
proof fn lemma_scan_insert_invisible(vs: Seq<VersionModel>, p: int, nv: VersionModel, i: int, key: Key, floor: Lsn, cont: Lsn, st: StateModel)
    requires
        0 <= p <= vs.len(),
        0 <= i <= vs.len() + 1,
        nv.1 >= cont,
    ensures
        scan_versions(vs.insert(p, nv), i, key, floor, cont, st)
            == scan_versions(vs, if i > p { i - 1 } else { i }, key, floor, cont, st),
    decreases i,
{
    let vs2 = vs.insert(p, nv);
    if i > 0 {
        let j = if i > p { i - 1 } else { i };
        if i - 1 == p {
            assert(vs2[i - 1] == nv);
            lemma_scan_insert_invisible(vs, p, nv, i - 1, key, floor, cont, st);
        } else {
            if i - 1 > p {
                assert(vs2[i - 1] == vs[i - 2]);
            } else {
                assert(vs2[i - 1] == vs[i - 1]);
            }
            let v = vs2[i - 1];
            if v.0 == key && floor <= v.1 && v.1 < cont {
                match v.2 {
                    crate::value::ValueModel::Image(b) => {},
                    crate::value::ValueModel::Record(w, rec) => {
                        let st2 = crate::layer::push_record(st, v.1, (w, rec));
                        lemma_scan_insert_invisible(vs, p, nv, i - 1, key, floor, cont, st2);
                    },
                }
            } else {
                lemma_scan_insert_invisible(vs, p, nv, i - 1, key, floor, cont, st);
            }
        }
    }
}

/// Replacing a version at or above `cont` by another one there leaves a scan below `cont` as it was.
proof fn lemma_scan_update_invisible(vs: Seq<VersionModel>, p: int, nv: VersionModel, i: int, key: Key, floor: Lsn, cont: Lsn, st: StateModel)
    requires
        0 <= p < vs.len(),
        0 <= i <= vs.len(),
        nv.1 >= cont,
        vs[p].1 == nv.1,
    ensures
        scan_versions(vs.update(p, nv), i, key, floor, cont, st) == scan_versions(vs, i, key, floor, cont, st),
    decreases i,
{
    let vs2 = vs.update(p, nv);
    if i > 0 {
        assert(vs2[i - 1].0 == key && floor <= vs2[i - 1].1 && vs2[i - 1].1 < cont ==> vs2[i - 1] == vs[i - 1]);
        let v = vs[i - 1];
        if v.0 == key && floor <= v.1 && v.1 < cont {
            match v.2 {
                crate::value::ValueModel::Image(b) => {},
                crate::value::ValueModel::Record(w, rec) => {
                    let st2 = crate::layer::push_record(st, v.1, (w, rec));
                    lemma_scan_update_invisible(vs, p, nv, i - 1, key, floor, cont, st2);
                },
            }
        } else {
            lemma_scan_update_invisible(vs, p, nv, i - 1, key, floor, cont, st);
        }
    }
}

/// Reading twice gives the same data when only later versions were written in
/// between: putting a version at an LSN at or above the read's bound `cont`
/// leaves what the layer returns for every key and every `[floor, cont)` unchanged.
pub proof fn lemma_later_write_invisible(vs: Seq<VersionModel>, nv: VersionModel, vs2: Seq<VersionModel>, key: Key, floor: Lsn, cont: Lsn, st: StateModel)
    requires
        put_into(vs, nv, vs2),
        nv.1 >= cont,
    ensures
        scan_versions(vs2, vs2.len() as int, key, floor, cont, st) == scan_versions(vs, vs.len() as int, key, floor, cont, st),
{
    let p = choose|p: int| 0 <= p <= vs.len() && {
        ||| (vs2 == vs.insert(p, nv)
            && (forall|i: int| 0 <= i < p ==> version_lt(#[trigger] vs[i], nv))
            && (forall|i: int| p <= i < vs.len() ==> version_lt(nv, #[trigger] vs[i])))
        ||| (p < vs.len() && vs[p].0 == nv.0 && vs[p].1 == nv.1 && vs2 == vs.update(p, nv))
    };
    if vs2 == vs.insert(p, nv) {
        lemma_scan_insert_invisible(vs, p, nv, vs.len() + 1 as int, key, floor, cont, st);
    } else {
        lemma_scan_update_invisible(vs, p, nv, vs.len() as int, key, floor, cont, st);
    }
}

} // verus!
