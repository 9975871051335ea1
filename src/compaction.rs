//! Level-0 compaction: merging a contiguous run of level-0 delta layers and
//! cutting the merged versions into new delta layers of about a target size.
use vstd::prelude::*;
use itertools::Itertools;
use crate::value::{Key, Lsn, PageVersion, Value, VersionModel, versions_view};
use crate::layer::{HistoricLayer, LayerModel};
use crate::inmemory_layer::{MAX_STORED_KEY, value_len};
use crate::layer_map::{layers_view, removed_layers, kept_layers, LayerMapModel, count_level0};
use crate::timeline::{LayeredTimeline, TimelineError, timeline_wf};

verus! {

/// `a` does not come after `b` in key-then-LSN order.
pub open spec fn version_le(a: VersionModel, b: VersionModel) -> bool {
    a.0 < b.0 || (a.0 == b.0 && a.1 <= b.1)
}

/// Versions in key-then-LSN order, equal pairs allowed.
pub open spec fn versions_ordered(vs: Seq<VersionModel>) -> bool {
    forall|i: int, j: int| 0 <= i < j < vs.len() ==> version_le(#[trigger] vs[i], #[trigger] vs[j])
}

/// Every version lies in `[lo, hi)` and has a successor key.
pub open spec fn versions_in_bounds(vs: Seq<VersionModel>, lo: Lsn, hi: Lsn) -> bool {
    forall|i: int| 0 <= i < vs.len() ==> lo <= (#[trigger] vs[i]).1 && vs[i].1 < hi && vs[i].0 <= MAX_STORED_KEY
}

/// The versions of `ls[..n]`, one layer after the other.
pub open spec fn concat_versions(ls: Seq<LayerModel>, n: int) -> Seq<VersionModel>
    decreases n,
{
    if n <= 0 {
        Seq::empty()
    } else {
        concat_versions(ls, n - 1) + ls[n - 1].versions
    }
}

/// The versions of `vs[..n]`, one list after the other.
pub open spec fn all_versions(vs: Seq<Vec<PageVersion>>, n: int) -> Seq<VersionModel>
    decreases n,
{
    if n <= 0 {
        Seq::empty()
    } else {
        all_versions(vs, n - 1) + versions_view(vs[n - 1]@)
    }
}

/// A layer that compaction writes over `[lo, hi)`: a non-empty delta whose
/// versions lie in its key and LSN ranges, and that either spans all of
/// `[lo, hi)` or holds a single key.
pub open spec fn compaction_output_ok(o: LayerModel, lo: Lsn, hi: Lsn) -> bool {
    &&& !o.is_image
    &&& !o.level0
    &&& o.versions.len() > 0
    &&& forall|i: int| 0 <= i < o.versions.len() ==> {
            &&& o.key_range.0 <= (#[trigger] o.versions[i]).0 && o.versions[i].0 < o.key_range.1
            &&& o.lsn_range.0 <= o.versions[i].1 && o.versions[i].1 < o.lsn_range.1
        }
    &&& (o.lsn_range == (lo, hi) || o.key_range.1 == o.key_range.0 + 1)
    &&& versions_ordered(o.versions)
}

/// Compaction outputs, in order, form per key range one chain of LSN ranges
/// from `lo` to `hi`: the first layer of a key range starts at `lo`, each next
/// one starts where the one before ends, the last ends at `hi`; key ranges of
/// different chains do not overlap, and come in ascending order.
pub open spec fn chained(ls: Seq<LayerModel>, lo: Lsn, hi: Lsn) -> bool {
    &&& (ls.len() > 0 ==> ls[0].lsn_range.0 == lo)
    &&& forall|i: int| 0 < i < ls.len() && ls[i - 1].key_range == ls[i].key_range ==> ls[i - 1].lsn_range.1 == (#[trigger] ls[i]).lsn_range.0
    &&& forall|i: int| 0 < i < ls.len() && ls[i - 1].key_range != ls[i].key_range ==> ls[i - 1].lsn_range.1 == hi && (#[trigger] ls[i]).lsn_range.0 == lo
    &&& forall|i: int, j: int| 0 <= i < j < ls.len() ==> (#[trigger] ls[i]).key_range == (#[trigger] ls[j]).key_range || ls[i].key_range.1 <= ls[j].key_range.0
}

/// Appending a layer that continues the last chain, or starts a new one
/// after all others, keeps the outputs chained.
proof fn lemma_chained_push(ls: Seq<LayerModel>, x: LayerModel, lo: Lsn, hi: Lsn)
    requires
        chained(ls, lo, hi),
        ls.len() == 0 ==> x.lsn_range.0 == lo,
        ls.len() > 0 && ls.last().key_range == x.key_range ==> ls.last().lsn_range.1 == x.lsn_range.0,
        ls.len() > 0 && ls.last().key_range != x.key_range ==> ls.last().lsn_range.1 == hi && x.lsn_range.0 == lo,
        forall|i: int| 0 <= i < ls.len() ==> (#[trigger] ls[i]).key_range == x.key_range || ls[i].key_range.1 <= x.key_range.0,
    ensures
        chained(ls.push(x), lo, hi),
{
    let n = ls.push(x);
    assert forall|i: int, j: int| 0 <= i < j < n.len() implies (#[trigger] n[i]).key_range == (#[trigger] n[j]).key_range || n[i].key_range.1 <= n[j].key_range.0 by {
        if j < ls.len() {
            assert(n[i] == ls[i] && n[j] == ls[j]);
        } else {
            assert(n[i] == ls[i]);
        }
    }
    assert forall|i: int| 0 < i < n.len() && n[i - 1].key_range == n[i].key_range implies n[i - 1].lsn_range.1 == (#[trigger] n[i]).lsn_range.0 by {
        if i < ls.len() { assert(n[i] == ls[i] && n[i - 1] == ls[i - 1]); }
    }
    assert forall|i: int| 0 < i < n.len() && n[i - 1].key_range != n[i].key_range implies n[i - 1].lsn_range.1 == hi && (#[trigger] n[i]).lsn_range.0 == lo by {
        if i < ls.len() { assert(n[i] == ls[i] && n[i - 1] == ls[i - 1]); }
    }
    if ls.len() > 0 {
        assert(n[0] == ls[0]);
    }
}

/// Bytes of the values of `vs`.
pub open spec fn versions_bytes(vs: Seq<VersionModel>) -> nat
    decreases vs.len(),
{
    if vs.len() == 0 {
        0
    } else {
        versions_bytes(vs.drop_last()) + version_size(vs.last())
    }
}

/// `x`, or `u64::MAX` where it is larger.
pub open spec fn sat(x: nat) -> nat {
    if x > u64::MAX { u64::MAX as nat } else { x }
}

/// Two neighbouring versions of `vs` share an LSN.
pub open spec fn has_tie(vs: Seq<VersionModel>) -> bool {
    exists|i: int| 0 < i < vs.len() && #[trigger] vs[i].1 == vs[i - 1].1
}

/// A compaction output keeps within `target` bytes, unless it holds a single
/// version, holds versions that share an LSN (which are never cut apart), or
/// the target is unbounded.
pub open spec fn within_target(o: LayerModel, target: u64) -> bool {
    versions_bytes(o.versions) <= target || o.versions.len() == 1 || has_tie(o.versions) || target == u64::MAX
}

proof fn lemma_bytes_push(vs: Seq<VersionModel>, x: VersionModel)
    ensures
        versions_bytes(vs.push(x)) == versions_bytes(vs) + version_size(x),
{
    assert(vs.push(x).drop_last() =~= vs);
}

proof fn lemma_target_push(ls: Seq<LayerModel>, x: LayerModel, target: u64)
    requires
        forall|i: int| 0 <= i < ls.len() ==> within_target(#[trigger] ls[i], target),
        within_target(x, target),
    ensures
        forall|i: int| 0 <= i < ls.push(x).len() ==> within_target(#[trigger] ls.push(x)[i], target),
{
    assert forall|i: int| 0 <= i < ls.push(x).len() implies within_target(#[trigger] ls.push(x)[i], target) by {
        if i < ls.len() {
            assert(ls.push(x)[i] == ls[i]);
        }
    }
}

/// Bytes that a version adds to a layer.
pub open spec fn version_size(v: VersionModel) -> nat {
    value_len(v.2)
}

/// Byte size of a version's value.
pub fn page_version_size(v: &PageVersion) -> (r: u64)
    ensures
        r == version_size(v@),
{
    match &v.value {
        Value::Image(b) => b.len() as u64,
        Value::WalRecord(r) => r.rec.len() as u64,
    }
}

/// `a + b`, or `u64::MAX` where that does not fit.
pub fn add_saturating(a: u64, b: u64) -> (r: u64)
    ensures
        r == if a + b > u64::MAX { u64::MAX as int } else { a + b },
{
    if b > u64::MAX - a { u64::MAX } else { a + b }
}

/// Moves the first version of `src` to the back of `dst`.
fn move_front(src: &mut Vec<PageVersion>, dst: &mut Vec<PageVersion>)
    requires
        old(src)@.len() > 0,
    ensures
        versions_view(final(src)@) == versions_view(old(src)@).skip(1),
        versions_view(final(dst)@) == versions_view(old(dst)@).push(versions_view(old(src)@)[0]),
{
    let ghost s0 = versions_view(src@);
    let ghost d0 = versions_view(dst@);
    let x = src.remove(0);
    assert(s0[0] == x@);
    dst.push(x);
    assert(versions_view(src@) =~= s0.skip(1));
    assert(versions_view(dst@) =~= d0.push(x@));
}

/// The level-1 delta holding `cur`, which is ordered, over `[first key, last key + 1) x [lo, hi)`.
fn finish_multi_key(cur: Vec<PageVersion>, lo: Lsn, hi: Lsn) -> (r: HistoricLayer)
    requires
        cur@.len() > 0,
        versions_ordered(versions_view(cur@)),
        versions_in_bounds(versions_view(cur@), lo, hi),
    ensures
        r@.versions == versions_view(cur@),
        compaction_output_ok(r@, lo, hi),
        r@.key_range == (versions_view(cur@)[0].0, (versions_view(cur@).last().0 + 1) as Key),
        r@.lsn_range == (lo, hi),
{
    let ghost cv = versions_view(cur@);
    let key_start = cur[0].key;
    let last = cur.len() - 1;
    assert(cv[last as int].0 <= MAX_STORED_KEY);
    let key_end = cur[last].key + 1;
    let r = HistoricLayer { is_image: false, level0: false, key_start, key_end, lsn_start: lo, lsn_end: hi, versions: cur };
    assert forall|i: int| 0 <= i < cv.len() implies key_start <= (#[trigger] cv[i]).0 && cv[i].0 < key_end by {
        if i > 0 {
            assert(version_le(cv[0], cv[i]));
        }
        if i < last {
            assert(version_le(cv[i], cv[last as int]));
        }
    }
    r
}

/// `concat_versions` of a prefix depends on that prefix alone.
proof fn lemma_concat_prefix(a: Seq<LayerModel>, b: Seq<LayerModel>, n: int)
    requires
        0 <= n <= a.len(),
        n <= b.len(),
        forall|i: int| 0 <= i < n ==> a[i] == b[i],
    ensures
        concat_versions(a, n) == concat_versions(b, n),
    decreases n,
{
    if n > 0 {
        lemma_concat_prefix(a, b, n - 1);
    }
}

/// What `versions_view(rest) == vm.skip(c)` says of each element.
proof fn lemma_rest(rest: Seq<PageVersion>, vm: Seq<VersionModel>, c: int)
    requires
        0 <= c <= vm.len(),
        versions_view(rest) == vm.skip(c),
    ensures
        rest.len() == vm.len() - c,
        forall|q: int| 0 <= q < rest.len() ==> #[trigger] rest[q]@ == vm[c + q],
{
    assert(versions_view(rest).len() == rest.len());
    assert(vm.skip(c).len() == vm.len() - c);
    assert forall|q: int| 0 <= q < rest.len() implies #[trigger] rest[q]@ == vm[c + q] by {
        assert(versions_view(rest)[q] == rest[q]@);
        assert(vm.skip(c)[q] == vm[c + q]);
    }
}

/// Adding an acceptable layer keeps every output acceptable.
proof fn lemma_ok_push(ls: Seq<LayerModel>, x: LayerModel, lo: Lsn, hi: Lsn)
    requires
        forall|i: int| 0 <= i < ls.len() ==> compaction_output_ok(#[trigger] ls[i], lo, hi),
        compaction_output_ok(x, lo, hi),
    ensures
        forall|i: int| 0 <= i < ls.push(x).len() ==> compaction_output_ok(#[trigger] ls.push(x)[i], lo, hi),
{
    assert forall|i: int| 0 <= i < ls.push(x).len() implies compaction_output_ok(#[trigger] ls.push(x)[i], lo, hi) by {
        if i < ls.len() {
            assert(ls.push(x)[i] == ls[i]);
        }
    }
}

/// Appends a finished layer to the output.
fn emit(out: &mut Vec<HistoricLayer>, l: HistoricLayer)
    ensures
        layers_view(final(out)@) == layers_view(old(out)@).push(l@),
        concat_versions(layers_view(final(out)@), final(out)@.len() as int)
            == concat_versions(layers_view(old(out)@), old(out)@.len() as int) + l@.versions,
{
    let ghost before = layers_view(out@);
    let ghost lv = l@;
    out.push(l);
    assert(layers_view(out@) =~= before.push(lv));
    proof {
        lemma_concat_prefix(before.push(lv), before, before.len() as int);
    }
}

/// Cuts `merged`, ordered by key and LSN with every LSN in `[lo, hi)`, into
/// delta layers. Keys go whole into a layer spanning `[lo, hi)` while the layer
/// stays within `target` bytes; a key whose versions alone exceed `target` is
/// cut on the LSN dimension into layers of that single key whose LSN ranges
/// follow one another from `lo` to `hi`. The layers hold `merged`, in order.
#[verifier::spinoff_prover]
#[verifier::rlimit(60)]
pub fn split_into_layers(merged: Vec<PageVersion>, lo: Lsn, hi: Lsn, target: u64) -> (out: Vec<HistoricLayer>)
    requires
        versions_ordered(versions_view(merged@)),
        versions_in_bounds(versions_view(merged@), lo, hi),
    ensures
        concat_versions(layers_view(out@), out@.len() as int) == versions_view(merged@),
        forall|i: int| 0 <= i < out@.len() ==> compaction_output_ok(#[trigger] layers_view(out@)[i], lo, hi),
        chained(layers_view(out@), lo, hi),
        out@.len() > 0 ==> layers_view(out@).last().lsn_range.1 == hi,
        forall|i: int| 0 <= i < out@.len() ==> within_target(#[trigger] layers_view(out@)[i], target),
{
    let ghost vm = versions_view(merged@);
    let mut rest = merged;
    let mut out: Vec<HistoricLayer> = Vec::new();
    let mut cur: Vec<PageVersion> = Vec::new();
    let mut cur_size: u64 = 0;
    let ghost mut c: int = 0;
    assert(vm.skip(0) =~= vm);
    assert(concat_versions(layers_view(out@), 0) + versions_view(cur@) =~= vm.take(0));
    while rest.len() > 0
        invariant
            versions_ordered(vm),
            versions_in_bounds(vm, lo, hi),
            0 <= c <= vm.len(),
            versions_view(rest@) == vm.skip(c),
            concat_versions(layers_view(out@), out@.len() as int) + versions_view(cur@) == vm.take(c),
            cur@.len() <= c,
            versions_view(cur@) == vm.subrange(c - cur@.len(), c),
            forall|i: int| 0 <= i < out@.len() ==> compaction_output_ok(#[trigger] layers_view(out@)[i], lo, hi),
            chained(layers_view(out@), lo, hi),
            out@.len() > 0 ==> layers_view(out@).last().lsn_range.1 == hi,
            c - cur@.len() < vm.len() ==> forall|i: int| 0 <= i < out@.len() ==> (#[trigger] layers_view(out@)[i]).key_range.1 <= vm[c - cur@.len()].0,
            0 < c < vm.len() ==> vm[c - 1].0 < vm[c].0,
            forall|i: int| 0 <= i < out@.len() ==> within_target(#[trigger] layers_view(out@)[i], target),
            cur_size == sat(versions_bytes(versions_view(cur@))),
            versions_bytes(versions_view(cur@)) <= target || target == u64::MAX,
        decreases rest@.len(),
    {
        proof { lemma_rest(rest@, vm, c); }
        let ghost c0 = c;
        let key = rest[0].key;
        let mut j: usize = 0;
        let mut total: u64 = 0;
        while j < rest.len() && rest[j].key == key
            invariant
                j <= rest@.len(),
                0 <= c <= vm.len(),
                versions_view(rest@) == vm.skip(c),
                forall|q: int| c <= q < c + j ==> (#[trigger] vm[q]).0 == key,
                total == sat(versions_bytes(vm.subrange(c, c + j))),
            decreases rest@.len() - j,
        {
            proof { lemma_rest(rest@, vm, c); }
            proof {
                assert(vm.subrange(c, c + j + 1) =~= vm.subrange(c, c + j).push(vm[c + j]));
                lemma_bytes_push(vm.subrange(c, c + j), vm[c + j]);
                assert(rest@[j as int]@ == vm[c + j]);
            }
            total = add_saturating(total, page_version_size(&rest[j]));
            j = j + 1;
        }
        assert(j >= 1);
        proof {
            lemma_rest(rest@, vm, c);
            if (j as int) < rest@.len() {
                assert(rest@[j as int]@ == vm[c + j]);
            }
        }
        assert(c0 + j < vm.len() ==> vm[c0 + j].0 != key);
        if total > target {
            if cur.len() > 0 {
                let ghost cv = versions_view(cur@);
                let ghost start = c - cur@.len();
                assert forall|a: int, b: int| 0 <= a < b < cv.len() implies version_le(#[trigger] cv[a], #[trigger] cv[b]) by {
                    assert(version_le(vm[start + a], vm[start + b]));
                }
                assert forall|a: int| 0 <= a < cv.len() implies lo <= (#[trigger] cv[a]).1 && cv[a].1 < hi && cv[a].0 <= MAX_STORED_KEY by {
                    assert(vm[start + a] == cv[a]);
                }
                let done = finish_multi_key(cur, lo, hi);
                let ghost ob = layers_view(out@);
                proof {
                    lemma_ok_push(ob, done@, lo, hi);
                    assert(cv[0] == vm[start]);
                    assert(cv.last() == vm[c - 1]);
                    lemma_chained_push(ob, done@, lo, hi);
                    lemma_target_push(ob, done@, target);
                }
                emit(&mut out, done);
                cur = Vec::new();
                cur_size = 0;
                assert(versions_view(cur@) =~= Seq::<VersionModel>::empty());
                assert(versions_bytes(versions_view(cur@)) == 0);
                assert(concat_versions(layers_view(out@), out@.len() as int) + versions_view(cur@) =~= vm.take(c));
                assert forall|i: int| 0 <= i < out@.len() implies (#[trigger] layers_view(out@)[i]).key_range.1 <= vm[c].0 by {
                    if i < ob.len() {
                        assert(layers_view(out@)[i] == ob[i]);
                        assert(version_le(vm[start], vm[c]));
                    }
                }
            }
            assert(vm[c].0 <= MAX_STORED_KEY);
            proof { lemma_rest(rest@, vm, c); }
            let mut chunk_start: Lsn = lo;
            let mut g: usize = j;
            while g > 0
                invariant
                    versions_ordered(vm),
                    versions_in_bounds(vm, lo, hi),
                    0 <= c <= vm.len(),
                    g <= vm.len() - c,
                    key <= MAX_STORED_KEY,
                    versions_view(rest@) == vm.skip(c),
                    rest@.len() == vm.len() - c,
                    cur@.len() == 0,
                    concat_versions(layers_view(out@), out@.len() as int) == vm.take(c),
                    forall|q: int| c <= q < c + g ==> (#[trigger] vm[q]).0 == key,
                    g > 0 ==> chunk_start <= vm[c].1,
                    forall|i: int| 0 <= i < out@.len() ==> compaction_output_ok(#[trigger] layers_view(out@)[i], lo, hi),
                    c + g == c0 + j,
                    j >= 1,
                    0 <= c0,
                    c0 + j <= vm.len(),
                    forall|q: int| c0 <= q < c0 + j ==> (#[trigger] vm[q]).0 == key,
                    c0 + j < vm.len() ==> vm[c0 + j].0 != key,
                    chained(layers_view(out@), lo, hi),
                    forall|i: int| 0 <= i < out@.len() ==> (#[trigger] layers_view(out@)[i]).key_range == (key, (key + 1) as Key)
                        || layers_view(out@)[i].key_range.1 <= key,
                    (out@.len() > 0 && layers_view(out@).last().key_range == (key, (key + 1) as Key) && layers_view(out@).last().lsn_range.1 == chunk_start)
                        || (chunk_start == lo && (out@.len() > 0 ==> layers_view(out@).last().lsn_range.1 == hi
                            && layers_view(out@).last().key_range != (key, (key + 1) as Key))),
                    g == 0 ==> out@.len() > 0 && layers_view(out@).last().lsn_range.1 == hi,
                    forall|i: int| 0 <= i < out@.len() ==> within_target(#[trigger] layers_view(out@)[i], target),
                    cur_size == 0,
                    versions_bytes(versions_view(cur@)) == 0,
                decreases g,
            {
                let mut chunk: Vec<PageVersion> = Vec::new();
                proof { lemma_rest(rest@, vm, c); }
                let ghost cs = c;
                let mut csize = page_version_size(&rest[0]);
                let ghost cb0 = versions_view(chunk@);
                move_front(&mut rest, &mut chunk);
                proof {
                    assert(cb0 =~= Seq::<VersionModel>::empty());
                    lemma_bytes_push(cb0, vm[c]);
                }
                proof { c = c + 1; }
                g = g - 1;
                assert(versions_view(rest@) =~= vm.skip(c));
                proof { lemma_rest(rest@, vm, c); }
                assert(versions_view(chunk@) =~= vm.subrange(c - 1, c));
                assert(vm.take(c) =~= vm.take(c - 1).push(vm[c - 1]));
                let ghost g1 = g;
                while g > 0 && (add_saturating(csize, page_version_size(&rest[0])) <= target || rest[0].lsn == chunk[chunk.len() - 1].lsn)
                    invariant
                        versions_ordered(vm),
                        0 <= c <= vm.len(),
                        g <= vm.len() - c,
                        chunk@.len() >= 1,
                        chunk@.len() <= c,
                        versions_view(rest@) == vm.skip(c),
                        versions_view(chunk@) == vm.subrange(c - chunk@.len(), c),
                        forall|q: int| c - chunk@.len() <= q < c + g ==> (#[trigger] vm[q]).0 == key,
                        concat_versions(layers_view(out@), out@.len() as int) + versions_view(chunk@) == vm.take(c),
                        rest@.len() == vm.len() - c,
                        g <= g1,
                        c - chunk@.len() == cs,
                        chunk_start <= vm[cs].1,
                        versions_in_bounds(vm, lo, hi),
                        c + g == c0 + j,
                        csize == sat(versions_bytes(versions_view(chunk@))),
                        chunk@.len() == 1 || versions_bytes(versions_view(chunk@)) <= target || has_tie(versions_view(chunk@)) || target == u64::MAX,
                    decreases g,
                {
                    proof { lemma_rest(rest@, vm, c); }
                    assert(versions_view(chunk@)[chunk@.len() - 1] == chunk@[chunk@.len() - 1]@);
                    let sz = page_version_size(&rest[0]);
                    let tie = rest[0].lsn == chunk[chunk.len() - 1].lsn;
                    let fits = add_saturating(csize, sz) <= target;
                    assert(fits || tie);
                    csize = add_saturating(csize, sz);
                    let ghost cb = versions_view(chunk@);
                    let ghost x = vm[c];
                    assert(rest@[0]@ == x);
                    move_front(&mut rest, &mut chunk);
                    proof {
                        lemma_bytes_push(cb, x);
                        assert(versions_view(chunk@) == cb.push(x));
                        if tie {
                            let nv = versions_view(chunk@);
                            assert(nv[nv.len() - 1].1 == nv[nv.len() - 2].1);
                            assert(has_tie(nv));
                        }
                    }
                    proof { c = c + 1; }
                    g = g - 1;
                    assert(versions_view(rest@) =~= vm.skip(c));
                    proof { lemma_rest(rest@, vm, c); }
                    assert(versions_view(chunk@) =~= vm.subrange(c - chunk@.len(), c));
                    assert(vm.take(c) =~= vm.take(c - 1).push(vm[c - 1]));
                }
                let ghost cv = versions_view(chunk@);
                let ghost first = c - chunk@.len();
                proof { lemma_rest(rest@, vm, c); }
                assert(versions_view(chunk@)[chunk@.len() - 1] == chunk@[chunk@.len() - 1]@);
                assert(chunk@[chunk@.len() - 1]@ == vm[c - 1]);
                let chunk_end = if g > 0 {
                    rest[0].lsn
                } else {
                    hi
                };
                proof {
                    assert forall|a: int| 0 <= a < cv.len() implies {
                        &&& key <= (#[trigger] cv[a]).0 && cv[a].0 < key + 1
                        &&& chunk_start <= cv[a].1 && cv[a].1 < chunk_end
                    } by {
                        assert(cv[a] == vm[first + a]);
                        assert(vm[first + a].0 == key);
                        if a > 0 {
                            assert(version_le(vm[first], vm[first + a]));
                        }
                        if g > 0 {
                            assert(version_le(vm[c - 1], vm[c]));
                            if first + a < c - 1 {
                                assert(version_le(vm[first + a], vm[c - 1]));
                            }
                        }
                    }
                }
                let l = HistoricLayer {
                    is_image: false,
                    level0: false,
                    key_start: key,
                    key_end: key + 1,
                    lsn_start: chunk_start,
                    lsn_end: chunk_end,
                    versions: chunk,
                };
                assert(compaction_output_ok(l@, lo, hi));
                let ghost ob = layers_view(out@);
                proof {
                    lemma_ok_push(ob, l@, lo, hi);
                    lemma_chained_push(ob, l@, lo, hi);
                    lemma_target_push(ob, l@, target);
                }
                emit(&mut out, l);
                assert forall|i: int| 0 <= i < out@.len() implies (#[trigger] layers_view(out@)[i]).key_range == (key, (key + 1) as Key)
                    || layers_view(out@)[i].key_range.1 <= key by {
                    if i < ob.len() {
                        assert(layers_view(out@)[i] == ob[i]);
                    }
                }
                chunk_start = chunk_end;
            }
        } else {
            if cur.len() > 0 && add_saturating(cur_size, total) > target {
                let ghost cv = versions_view(cur@);
                let ghost start = c - cur@.len();
                assert forall|a: int, b: int| 0 <= a < b < cv.len() implies version_le(#[trigger] cv[a], #[trigger] cv[b]) by {
                    assert(version_le(vm[start + a], vm[start + b]));
                }
                assert forall|a: int| 0 <= a < cv.len() implies lo <= (#[trigger] cv[a]).1 && cv[a].1 < hi && cv[a].0 <= MAX_STORED_KEY by {
                    assert(vm[start + a] == cv[a]);
                }
                let done = finish_multi_key(cur, lo, hi);
                let ghost ob = layers_view(out@);
                proof {
                    lemma_ok_push(ob, done@, lo, hi);
                    assert(cv[0] == vm[start]);
                    assert(cv.last() == vm[c - 1]);
                    lemma_chained_push(ob, done@, lo, hi);
                    lemma_target_push(ob, done@, target);
                }
                emit(&mut out, done);
                cur = Vec::new();
                cur_size = 0;
                assert(versions_view(cur@) =~= Seq::<VersionModel>::empty());
                assert(versions_bytes(versions_view(cur@)) == 0);
                assert(concat_versions(layers_view(out@), out@.len() as int) + versions_view(cur@) =~= vm.take(c));
                assert forall|i: int| 0 <= i < out@.len() implies (#[trigger] layers_view(out@)[i]).key_range.1 <= vm[c].0 by {
                    if i < ob.len() {
                        assert(layers_view(out@)[i] == ob[i]);
                        assert(version_le(vm[start], vm[c]));
                    }
                }
            }
            let ghost cur_len0 = cur@.len() as int;
            let ghost b0 = versions_bytes(versions_view(cur@));
            assert(vm.subrange(c, c) =~= Seq::<VersionModel>::empty());
            let mut g: usize = j;
            while g > 0
                invariant
                    0 <= c <= vm.len(),
                    g <= vm.len() - c,
                    rest@.len() == vm.len() - c,
                    c + g == c0 + j,
                    cur@.len() <= c,
                    versions_view(rest@) == vm.skip(c),
                    versions_view(cur@) == vm.subrange(c - cur@.len(), c),
                    concat_versions(layers_view(out@), out@.len() as int) + versions_view(cur@) == vm.take(c),
                    c - cur@.len() == c0 - cur_len0,
                    c0 - cur_len0 >= 0,
                    cur_len0 >= 0,
                    c0 <= c,
                    versions_bytes(versions_view(cur@)) == b0 + versions_bytes(vm.subrange(c0, c)),
                decreases g,
            {
                let ghost cb = versions_view(cur@);
                proof { lemma_rest(rest@, vm, c); }
                let ghost x = vm[c];
                move_front(&mut rest, &mut cur);
                proof {
                    lemma_bytes_push(cb, x);
                    assert(c < vm.len());
                    assert(vm.subrange(c0, c + 1) =~= vm.subrange(c0, c).push(x));
                    lemma_bytes_push(vm.subrange(c0, c), x);
                }
                proof { c = c + 1; }
                g = g - 1;
                assert(versions_view(rest@) =~= vm.skip(c));
                proof { lemma_rest(rest@, vm, c); }
                assert(versions_view(cur@) =~= vm.subrange(c - cur@.len(), c));
                assert(vm.take(c) =~= vm.take(c - 1).push(vm[c - 1]));
            }
            assert(c == c0 + j);
            cur_size = add_saturating(cur_size, total);
        }
    }
    assert(c == vm.len());
    assert(vm.take(c) =~= vm);
    if cur.len() > 0 {
        let ghost cv = versions_view(cur@);
        let ghost start = c - cur@.len();
        assert forall|a: int, b: int| 0 <= a < b < cv.len() implies version_le(#[trigger] cv[a], #[trigger] cv[b]) by {
            assert(version_le(vm[start + a], vm[start + b]));
        }
        assert forall|a: int| 0 <= a < cv.len() implies lo <= (#[trigger] cv[a]).1 && cv[a].1 < hi && cv[a].0 <= MAX_STORED_KEY by {
            assert(vm[start + a] == cv[a]);
        }
        let done = finish_multi_key(cur, lo, hi);
        let ghost ob = layers_view(out@);
        proof {
            lemma_ok_push(ob, done@, lo, hi);
            assert(cv[0] == vm[start]);
            lemma_chained_push(ob, done@, lo, hi);
            lemma_target_push(ob, done@, target);
        }
        emit(&mut out, done);
    } else {
        assert(versions_view(cur@) =~= Seq::<VersionModel>::empty());
        assert(concat_versions(layers_view(out@), out@.len() as int) =~= vm);
    }
    out
}

/// `a` does not come after `b` in key-then-LSN order.
pub fn precedes(a: &PageVersion, b: &PageVersion) -> (r: bool)
    ensures
        r == version_le(a@, b@),
{
    a.key < b.key || (a.key == b.key && a.lsn <= b.lsn)
}

/// Relies on itertools::kmerge_by: it yields every item of every input
/// exactly once and, where each input is ordered by the predicate, in that order.
#[verifier::external_body]
fn merge_versions(inputs: Vec<Vec<PageVersion>>) -> (r: Vec<PageVersion>)
    requires
        forall|i: int| 0 <= i < inputs@.len() ==> versions_ordered(versions_view(#[trigger] inputs@[i]@)),
    ensures
        versions_ordered(versions_view(r@)),
        versions_view(r@).to_multiset() == all_versions(inputs@, inputs@.len() as int).to_multiset(),
{
    inputs.into_iter().kmerge_by(|a: &PageVersion, b: &PageVersion| precedes(a, b)).collect()
}

/// A version of `all_versions(vs, n)` is a version of one of the lists.
proof fn lemma_all_versions_member(vs: Seq<Vec<PageVersion>>, n: int, x: VersionModel)
    requires
        0 <= n <= vs.len(),
        all_versions(vs, n).contains(x),
    ensures
        exists|i: int| 0 <= i < n && #[trigger] versions_view(vs[i]@).contains(x),
    decreases n,
{
    let prev = all_versions(vs, n - 1);
    let last = versions_view(vs[n - 1]@);
    let w = choose|w: int| 0 <= w < all_versions(vs, n).len() && #[trigger] all_versions(vs, n)[w] == x;
    if w < prev.len() {
        assert((prev + last)[w] == prev[w]);
        assert(prev.contains(x));
        lemma_all_versions_member(vs, n - 1, x);
        let i = choose|i: int| 0 <= i < n - 1 && #[trigger] versions_view(vs[i]@).contains(x);
        assert(versions_view(vs[i]@).contains(x));
    } else {
        assert((prev + last)[w] == last[w - prev.len()]);
        assert(last.contains(x));
    }
}

/// Concatenating lists in one order, or the layers holding them, gives the same versions.
proof fn lemma_all_versions_concat(vs: Seq<Vec<PageVersion>>, ls: Seq<LayerModel>, n: int)
    requires
        0 <= n <= vs.len(),
        n <= ls.len(),
        forall|i: int| 0 <= i < n ==> versions_view(#[trigger] vs[i]@) == ls[i].versions,
    ensures
        all_versions(vs, n) == concat_versions(ls, n),
    decreases n,
{
    if n > 0 {
        lemma_all_versions_concat(vs, ls, n - 1);
    }
}

/// Every layer of `removed_layers(hs, marks, n)` is a marked layer of `hs`.
proof fn lemma_removed_marked(hs: Seq<LayerModel>, marks: Seq<bool>, n: int, k: int)
    requires
        0 <= n <= hs.len(),
        n <= marks.len(),
        0 <= k < removed_layers(hs, marks, n).len(),
    ensures
        exists|j: int| 0 <= j < n && marks[j] && #[trigger] hs[j] == removed_layers(hs, marks, n)[k],
    decreases n,
{
    let prev = removed_layers(hs, marks, n - 1);
    if marks[n - 1] {
        if k < prev.len() {
            lemma_removed_marked(hs, marks, n - 1, k);
            let j = choose|j: int| 0 <= j < n - 1 && marks[j] && #[trigger] hs[j] == prev[k];
            assert(hs[j] == removed_layers(hs, marks, n)[k]);
        } else {
            assert(hs[n - 1] == removed_layers(hs, marks, n)[k]);
        }
    } else {
        lemma_removed_marked(hs, marks, n - 1, k);
    }
}

/// The run of level-0 deltas to compact, as indices of `hs`: the one that
/// starts first, then repeatedly one whose LSN range starts where the previous
/// ends. Where the run is shorter than `l0`, no level-0 delta outside it starts
/// where it ends.
pub fn select_level0_run(hs: &Vec<HistoricLayer>, l0: &Vec<usize>) -> (run: Vec<usize>)
    requires
        l0@.len() > 0,
        forall|i: int| 0 <= i < l0@.len() ==> (#[trigger] l0@[i] as int) < hs@.len(),
    ensures
        run@.len() > 0,
        run@.len() <= l0@.len(),
        forall|k: int| 0 <= k < run@.len() ==> #[trigger] l0@.contains(run@[k]),
        forall|a: int, b: int| 0 <= a < b < run@.len() ==> run@[a] != run@[b],
        forall|i: int| 0 <= i < l0@.len() ==> hs@[run@[0] as int].lsn_start <= #[trigger] hs@[l0@[i] as int].lsn_start,
        forall|k: int| 0 < k < run@.len() ==> #[trigger] hs@[run@[k] as int].lsn_start == hs@[run@[k - 1] as int].lsn_end,
        run@.len() < l0@.len() ==> forall|i: int| 0 <= i < l0@.len() && !run@.contains(l0@[i])
            ==> #[trigger] hs@[l0@[i] as int].lsn_start != hs@[run@.last() as int].lsn_end,
{
    let mut first: usize = l0[0];
    let mut i: usize = 1;
    while i < l0.len()
        invariant
            1 <= i <= l0@.len(),
            l0@.contains(first),
            forall|q: int| 0 <= q < l0@.len() ==> (#[trigger] l0@[q] as int) < hs@.len(),
            (first as int) < hs@.len(),
            forall|q: int| 0 <= q < i ==> hs@[first as int].lsn_start <= #[trigger] hs@[l0@[q] as int].lsn_start,
        decreases l0@.len() - i,
    {
        if hs[l0[i]].lsn_start < hs[first].lsn_start {
            first = l0[i];
        }
        i = i + 1;
    }
    let mut run: Vec<usize> = Vec::new();
    run.push(first);
    while run.len() < l0.len()
        invariant
            run@.len() > 0,
            run@.len() <= l0@.len(),
            forall|q: int| 0 <= q < l0@.len() ==> (#[trigger] l0@[q] as int) < hs@.len(),
            forall|k: int| 0 <= k < run@.len() ==> #[trigger] l0@.contains(run@[k]),
            forall|a: int, b: int| 0 <= a < b < run@.len() ==> run@[a] != run@[b],
            run@[0] == first,
            forall|q: int| 0 <= q < l0@.len() ==> hs@[first as int].lsn_start <= #[trigger] hs@[l0@[q] as int].lsn_start,
            forall|k: int| 0 < k < run@.len() ==> #[trigger] hs@[run@[k] as int].lsn_start == hs@[run@[k - 1] as int].lsn_end,
        decreases l0@.len() - run@.len(),
    {
        let last = run[run.len() - 1];
        assert(l0@.contains(run@[run@.len() - 1]));
        let end = hs[last].lsn_end;
        let mut found: Option<usize> = None;
        let mut q: usize = 0;
        while q < l0.len()
            invariant
                q <= l0@.len(),
                forall|x: int| 0 <= x < l0@.len() ==> (#[trigger] l0@[x] as int) < hs@.len(),
                found is None ==> forall|x: int| 0 <= x < q && !run@.contains(l0@[x]) ==> #[trigger] hs@[l0@[x] as int].lsn_start != end,
                found is Some ==> l0@.contains(found.unwrap()) && !run@.contains(found.unwrap()) && hs@[found.unwrap() as int].lsn_start == end,
            decreases l0@.len() - q,
        {
            if found.is_none() {
                let cand = l0[q];
                let mut in_run = false;
                let mut k: usize = 0;
                while k < run.len()
                    invariant
                        k <= run@.len(),
                        in_run == exists|y: int| 0 <= y < k && run@[y] == cand,
                    decreases run@.len() - k,
                {
                    if run[k] == cand {
                        in_run = true;
                    }
                    k = k + 1;
                }
                if !in_run && hs[cand].lsn_start == end {
                    assert(l0@[q as int] == cand);
                    found = Some(cand);
                } else {
                    assert(in_run ==> run@.contains(cand));
                }
            }
            q = q + 1;
        }
        match found {
            None => {
                return run;
            },
            Some(f) => {
                let ghost before = run@;
                run.push(f);
                assert forall|k: int| 0 <= k < run@.len() implies #[trigger] l0@.contains(run@[k]) by {
                    if k < before.len() {
                        assert(run@[k] == before[k]);
                    }
                }
                assert forall|a: int, b: int| 0 <= a < b < run@.len() implies run@[a] != run@[b] by {
                    if b == before.len() {
                        assert(run@[a] == before[a]);
                        assert(before.contains(run@[a]));
                    }
                }
            },
        }
    }
    run
}

/// Whether `vs` is ordered by key and LSN and lies in `[lo, hi)` with
/// successor keys.
pub fn versions_valid(vs: &Vec<PageVersion>, lo: Lsn, hi: Lsn) -> (r: bool)
    ensures
        r == (versions_ordered(versions_view(vs@)) && versions_in_bounds(versions_view(vs@), lo, hi)),
{
    let ghost v = versions_view(vs@);
    let mut i: usize = 0;
    while i < vs.len()
        invariant
            i <= vs@.len(),
            v == versions_view(vs@),
            forall|a: int, b: int| 0 <= a < b < i ==> version_le(#[trigger] v[a], #[trigger] v[b]),
            forall|a: int| 0 <= a < i ==> lo <= (#[trigger] v[a]).1 && v[a].1 < hi && v[a].0 <= MAX_STORED_KEY,
        decreases vs@.len() - i,
    {
        assert(v[i as int] == vs@[i as int]@);
        let x = &vs[i];
        if !(lo <= x.lsn && x.lsn < hi && x.key <= MAX_STORED_KEY) {
            return false;
        }
        if i > 0 {
            assert(v[i - 1] == vs@[i - 1]@);
            if !precedes(&vs[i - 1], x) {
                return false;
            }
            assert forall|a: int, b: int| 0 <= a < b < i + 1 implies version_le(#[trigger] v[a], #[trigger] v[b]) by {
                if b == i && a < i - 1 {
                    assert(version_le(v[a], v[i - 1]));
                }
            }
        }
        i = i + 1;
    }
    true
}

/// `after` is `before` with the level-0 deltas marked by `marks` replaced by
/// `outs`: acceptable layers over `[lo, hi)` that hold, as a multiset, exactly
/// the versions of the replaced layers.
pub open spec fn compacted(before: LayerMapModel, after: LayerMapModel, marks: Seq<bool>, outs: Seq<LayerModel>, lo: Lsn, hi: Lsn, target: u64) -> bool {
    let hs = before.historic;
    let gone = removed_layers(hs, marks, hs.len() as int);
    &&& marks.len() == hs.len()
    &&& (forall|j: int| 0 <= j < hs.len() && #[trigger] marks[j] ==> hs[j].level0 && !hs[j].is_image)
    &&& gone.len() > 0
    &&& after == (LayerMapModel { historic: kept_layers(hs, marks, hs.len() as int) + outs, ..before })
    &&& concat_versions(outs, outs.len() as int).to_multiset() == concat_versions(gone, gone.len() as int).to_multiset()
    &&& forall|i: int| 0 <= i < outs.len() ==> compaction_output_ok(#[trigger] outs[i], lo, hi)
    &&& chained(outs, lo, hi)
    &&& (outs.len() > 0 ==> outs.last().lsn_range.1 == hi)
    &&& forall|i: int| 0 <= i < outs.len() ==> within_target(#[trigger] outs[i], target)
}

/// A level-0 delta.
pub open spec fn is_level0_delta(l: LayerModel) -> bool {
    l.level0 && !l.is_image
}

/// `run` is the run of level-0 deltas of `hs` that compaction takes: distinct
/// level-0 deltas, the first of them starting no later than any level-0 delta,
/// each next one starting where the one before ends, and, unless it takes them
/// all, no other level-0 delta starting where it ends.
pub open spec fn is_level0_run(hs: Seq<LayerModel>, run: Seq<usize>) -> bool {
    &&& run.len() > 0
    &&& forall|k: int| 0 <= k < run.len() ==> (#[trigger] run[k] as int) < hs.len() && is_level0_delta(hs[run[k] as int])
    &&& forall|a: int, b: int| 0 <= a < b < run.len() ==> run[a] != run[b]
    &&& forall|j: int| 0 <= j < hs.len() && is_level0_delta(#[trigger] hs[j]) ==> hs[run[0] as int].lsn_range.0 <= hs[j].lsn_range.0
    &&& forall|k: int| 0 < k < run.len() ==> hs[(#[trigger] run[k]) as int].lsn_range.0 == hs[run[k - 1] as int].lsn_range.1
    &&& run.len() < count_level0(hs, hs.len() as int) ==> forall|j: int| 0 <= j < hs.len() && is_level0_delta(#[trigger] hs[j])
            && !run.contains(j as usize) ==> hs[j].lsn_range.0 != hs[run.last() as int].lsn_range.1
}

/// Which layers of a map of `n` layers a run takes.
pub open spec fn run_marks(n: int, run: Seq<usize>) -> Seq<bool> {
    Seq::new(n as nat, |j: int| run.contains(j as usize))
}

/// Every layer of the run is ordered and lies in the run's LSN range.
pub open spec fn run_valid(hs: Seq<LayerModel>, run: Seq<usize>) -> bool {
    let lo = hs[run[0] as int].lsn_range.0;
    let hi = hs[run.last() as int].lsn_range.1;
    forall|k: int| 0 <= k < run.len() ==> versions_ordered(hs[(#[trigger] run[k]) as int].versions)
        && versions_in_bounds(hs[run[k] as int].versions, lo, hi)
}

/// What level-0 compaction does to a layer map: nothing, with `Ok(false)`,
/// where there are no level-0 deltas or fewer than `threshold`; otherwise, for
/// the run it takes, `Err(CorruptLayer)` and nothing where a layer of the run
/// is invalid, and else `Ok(true)` with the run replaced by new layers.
pub open spec fn level0_compaction(before: LayerMapModel, after: LayerMapModel, threshold: usize, target: u64, r: Result<bool, TimelineError>) -> bool {
    let hs = before.historic;
    let n = count_level0(hs, hs.len() as int);
    if n == 0 || n < threshold {
        r == Ok::<bool, TimelineError>(false) && after == before
    } else {
        exists|run: Seq<usize>| #[trigger] is_level0_run(hs, run) && if !run_valid(hs, run) {
            r == Err::<bool, TimelineError>(TimelineError::CorruptLayer) && after == before
        } else {
            r == Ok::<bool, TimelineError>(true) && exists|outs: Seq<LayerModel>|
                #[trigger] compacted(before, after, run_marks(hs.len() as int, run), outs,
                    hs[run[0] as int].lsn_range.0, hs[run.last() as int].lsn_range.1, target)
        }
    }
}

impl LayeredTimeline {
    /// Compacts level-0 deltas where there are at least `compaction_threshold`
    /// of them: a contiguous run of them, from the one that starts first, is
    /// merged by key and LSN and cut into level-1 deltas of about
    /// `compaction_target_size` bytes, which replace the run. Returns whether it
    /// did so. A run layer whose versions are out of order or out of its
    /// bounds leaves the map as it is and gives `CorruptLayer`.
    #[verifier::spinoff_prover]
    #[verifier::rlimit(80)]
    pub fn compact_level0(&mut self) -> (r: Result<bool, TimelineError>)
        requires
            timeline_wf(*old(self)),
        ensures
            timeline_wf(*final(self)),
            final(self).last_record_lsn == old(self).last_record_lsn,
            final(self).disk_consistent_lsn == old(self).disk_consistent_lsn,
            final(self).latest_gc_cutoff_lsn == old(self).latest_gc_cutoff_lsn,
            final(self).ancestor == old(self).ancestor,
            final(self).ancestor_lsn == old(self).ancestor_lsn,
            final(self).layers@.open_layer == old(self).layers@.open_layer,
            final(self).layers@.frozen_layers == old(self).layers@.frozen_layers,
            level0_compaction(old(self).layers@, final(self).layers@, old(self).conf.compaction_threshold, old(self).conf.compaction_target_size, r),
            r is Err ==> r == Err::<bool, TimelineError>(TimelineError::CorruptLayer),
            final(self).conf == old(self).conf,
            final(self).gc_info == old(self).gc_info,
            final(self).initdb_lsn == old(self).initdb_lsn,
            final(self).ancestor_id == old(self).ancestor_id,
            r is Err ==> final(self).layers@ == old(self).layers@,
            r == Ok::<bool, TimelineError>(false) ==> final(self).layers@ == old(self).layers@,
    {
        let l0 = self.layers.get_level0_deltas();
        if l0.len() == 0 || l0.len() < self.conf.compaction_threshold {
            return Ok(false);
        }
        assert(self.layers@.historic[l0@[0] as int].level0 && !self.layers@.historic[l0@[0] as int].is_image);
        let ghost hs = self.layers@.historic;
        let n = self.layers.historic.len();
        assert forall|i: int| 0 <= i < l0@.len() implies (#[trigger] l0@[i] as int) < self.layers.historic@.len() by {
            assert((l0@[i] as int) < hs.len());
        }
        let run = select_level0_run(&self.layers.historic, &l0);
        assert forall|x: int| 0 <= x < run@.len() implies (#[trigger] run@[x] as int) < hs.len() by {
            assert(l0@.contains(run@[x]));
            let w = choose|w: int| 0 <= w < l0@.len() && l0@[w] == run@[x];
            assert((l0@[w] as int) < hs.len());
        }
        let lo = self.layers.historic[run[0]].lsn_start;
        let hi = self.layers.historic[run[run.len() - 1]].lsn_end;
        proof {
            assert forall|k: int| 0 <= k < run@.len() implies (#[trigger] run@[k] as int) < hs.len() && is_level0_delta(hs[run@[k] as int]) by {
                assert(l0@.contains(run@[k]));
                let w = choose|w: int| 0 <= w < l0@.len() && l0@[w] == run@[k];
            }
            assert forall|j: int| 0 <= j < hs.len() && is_level0_delta(#[trigger] hs[j]) implies hs[run@[0] as int].lsn_range.0 <= hs[j].lsn_range.0 by {
                assert(l0@.contains(j as usize));
                let w = choose|w: int| 0 <= w < l0@.len() && l0@[w] == j as usize;
                assert(self.layers.historic@[l0@[w] as int]@ == hs[j]);
                assert(self.layers.historic@[run@[0] as int]@ == hs[run@[0] as int]);
            }
            assert forall|k: int| 0 < k < run@.len() implies hs[(#[trigger] run@[k]) as int].lsn_range.0 == hs[run@[k - 1] as int].lsn_range.1 by {
                assert(self.layers.historic@[run@[k] as int]@ == hs[run@[k] as int]);
                assert(self.layers.historic@[run@[k - 1] as int]@ == hs[run@[k - 1] as int]);
            }
            if run@.len() < count_level0(hs, hs.len() as int) {
                assert forall|j: int| 0 <= j < hs.len() && is_level0_delta(#[trigger] hs[j]) && !run@.contains(j as usize)
                    implies hs[j].lsn_range.0 != hs[run@.last() as int].lsn_range.1 by {
                    assert(l0@.contains(j as usize));
                    let w = choose|w: int| 0 <= w < l0@.len() && l0@[w] == j as usize;
                    assert(self.layers.historic@[l0@[w] as int]@ == hs[j]);
                    assert(self.layers.historic@[run@.last() as int]@ == hs[run@.last() as int]);
                }
            }
            assert(self.layers.historic@[run@[0] as int]@ == hs[run@[0] as int]);
            assert(self.layers.historic@[run@.last() as int]@ == hs[run@.last() as int]);
            assert(is_level0_run(hs, run@));
        }

        let mut marks: Vec<bool> = Vec::new();
        let mut j: usize = 0;
        while j < n
            invariant
                j <= n,
                n == hs.len(),
                marks@.len() == j,
                *self == *old(self),
                forall|q: int| 0 <= q < j ==> !#[trigger] marks@[q],
            decreases n - j,
        {
            marks.push(false);
            j = j + 1;
        }
        let mut k: usize = 0;
        while k < run.len()
            invariant
                k <= run@.len(),
                n == hs.len(),
                *self == *old(self),
                forall|x: int| 0 <= x < run@.len() ==> (#[trigger] run@[x] as int) < hs.len(),
                marks@.len() == n,
                forall|x: int| 0 <= x < run@.len() ==> #[trigger] l0@.contains(run@[x]),
                forall|i: int| 0 <= i < l0@.len() ==> (#[trigger] l0@[i] as int) < hs.len() && hs[l0@[i] as int].level0 && !hs[l0@[i] as int].is_image,
                forall|q: int| 0 <= q < n && #[trigger] marks@[q] ==> hs[q].level0 && !hs[q].is_image,
                forall|x: int| 0 <= x < k ==> marks@[#[trigger] run@[x] as int],
                forall|q: int| 0 <= q < n && #[trigger] marks@[q] ==> run@.contains(q as usize),
            decreases run@.len() - k,
        {
            let idx = run[k];
            assert(l0@.contains(run@[k as int]));
            let ghost w = choose|w: int| 0 <= w < l0@.len() && l0@[w] == idx;
            assert(l0@[w] == idx);
            let ghost mb = marks@;
            marks.set(idx, true);
            assert forall|x: int| 0 <= x < k + 1 implies marks@[#[trigger] run@[x] as int] by {
                if x < k {
                    assert(mb[run@[x] as int]);
                }
            }
            assert forall|q: int| 0 <= q < n && #[trigger] marks@[q] implies run@.contains(q as usize) by {
                if q != idx as int {
                    assert(mb[q]);
                } else {
                    assert(run@[k as int] == idx);
                }
            }
            k = k + 1;
        }
        assert(marks@[run@[0] as int]);
        assert(hs == self.layers@.historic);
        assert(marks@ =~= run_marks(n as int, run@)) by {
            assert forall|q: int| 0 <= q < n implies marks@[q] == run@.contains(q as usize) by {
                if run@.contains(q as usize) {
                    let x = choose|x: int| 0 <= x < run@.len() && run@[x] == q as usize;
                    assert(marks@[run@[x] as int]);
                }
            }
        }
        let ghost threshold = self.conf.compaction_threshold;

        let mut v: usize = 0;
        while v < n
            invariant
                v <= n,
                n == hs.len(),
                hs == self.layers@.historic,
                *self == *old(self),
                timeline_wf(*self),
                l0@.len() > 0,
                (l0@[0] as int) < hs.len(),
                hs[l0@[0] as int].level0 && !hs[l0@[0] as int].is_image,
                marks@.len() == n,
                forall|q: int| 0 <= q < v && #[trigger] marks@[q] ==> versions_ordered(hs[q].versions) && versions_in_bounds(hs[q].versions, lo, hi),
                marks@ == run_marks(n as int, run@),
                is_level0_run(hs, run@),
                lo == hs[run@[0] as int].lsn_range.0,
                hi == hs[run@.last() as int].lsn_range.1,
                threshold == old(self).conf.compaction_threshold,
                count_level0(hs, hs.len() as int) == l0@.len(),
                !(l0@.len() == 0 || l0@.len() < threshold),
            decreases n - v,
        {
            if marks[v] {
                assert(hs[v as int] == self.layers.historic@[v as int]@);
                if !versions_valid(&self.layers.historic[v].versions, lo, hi) {
                    proof {
                        assert(run@.contains(v as usize));
                        let x = choose|x: int| 0 <= x < run@.len() && run@[x] == v as usize;
                        assert(!(versions_ordered(hs[run@[x] as int].versions) && versions_in_bounds(hs[run@[x] as int].versions, lo, hi)));
                        assert(!run_valid(hs, run@));
                        assert(is_level0_run(hs, run@));
                    }
                    return Err(TimelineError::CorruptLayer);
                }
            }
            v = v + 1;
        }

        let ghost old_map = self.layers@;
        let ghost mk = marks@;
        let mut removed = self.layers.partition_historic(marks);
        let ghost gone = removed_layers(hs, mk, n as int);
        assert(gone.len() > 0) by {
            assert(mk[run@[0] as int]);
            lemma_removed_nonempty(hs, mk, n as int, run@[0] as int);
        }
        let ghost rv = layers_view(removed@);
        let mut inputs: Vec<Vec<PageVersion>> = Vec::new();
        let ghost mut t: int = 0;
        while removed.len() > 0
            invariant
                0 <= t <= rv.len(),
                rv == gone,
                layers_view(removed@) == rv.skip(t),
                inputs@.len() == t,
                forall|i: int| 0 <= i < t ==> versions_view(#[trigger] inputs@[i]@) == rv[i].versions,
            decreases removed@.len(),
        {
            let ghost before = layers_view(removed@);
            assert(before.len() == removed@.len());
            let l = removed.remove(0);
            assert(l@ == rv[t]) by {
                assert(before[0] == rv.skip(t)[0]);
            }
            assert(layers_view(removed@) =~= before.subrange(1, before.len() as int));
            inputs.push(l.versions);
            proof { t = t + 1; }
            assert(layers_view(removed@) =~= rv.skip(t));
        }
        assert(rv.skip(t).len() == 0);
        assert(t == gone.len());
        let ghost iv = inputs@;
        assert forall|i: int| 0 <= i < inputs@.len() implies versions_ordered(versions_view(#[trigger] inputs@[i]@)) && versions_in_bounds(versions_view(inputs@[i]@), lo, hi) by {
            lemma_removed_marked(hs, mk, n as int, i);
            let q = choose|q: int| 0 <= q < n && mk[q] && #[trigger] hs[q] == gone[i];
        }
        proof { lemma_all_versions_concat(iv, gone, gone.len() as int); }
        let merged = merge_versions(inputs);
        let ghost mv = versions_view(merged@);
        assert(versions_in_bounds(mv, lo, hi)) by {
            assert forall|a: int| 0 <= a < mv.len() implies lo <= (#[trigger] mv[a]).1 && mv[a].1 < hi && mv[a].0 <= MAX_STORED_KEY by {
                let x = mv[a];
                mv.to_multiset_ensures();
                all_versions(iv, iv.len() as int).to_multiset_ensures();
                assert(mv.contains(x));
                assert(mv.to_multiset().count(x) > 0);
                assert(all_versions(iv, iv.len() as int).to_multiset().count(x) > 0);
                assert(all_versions(iv, iv.len() as int).contains(x));
                lemma_all_versions_member(iv, iv.len() as int, x);
                let i = choose|i: int| 0 <= i < iv.len() && #[trigger] versions_view(iv[i]@).contains(x);
                let w = choose|w: int| 0 <= w < versions_view(iv[i]@).len() && versions_view(iv[i]@)[w] == x;
                assert(versions_in_bounds(versions_view(iv[i]@), lo, hi));
            }
        }
        let mut outs = split_into_layers(merged, lo, hi, self.conf.compaction_target_size);
        let ghost ov = layers_view(outs@);
        let ghost base = self.layers@;
        let ghost mut u: int = 0;
        while outs.len() > 0
            invariant
                0 <= u <= ov.len(),
                layers_view(outs@) == ov.skip(u),
                self.layers@ == (LayerMapModel { historic: base.historic + ov.take(u), ..base }),
                self.conf == old(self).conf,
                self.gc_info == old(self).gc_info,
                self.initdb_lsn == old(self).initdb_lsn,
                self.ancestor_id == old(self).ancestor_id,
                self.last_record_lsn == old(self).last_record_lsn,
                self.disk_consistent_lsn == old(self).disk_consistent_lsn,
                self.latest_gc_cutoff_lsn == old(self).latest_gc_cutoff_lsn,
                self.ancestor == old(self).ancestor,
                self.ancestor_lsn == old(self).ancestor_lsn,
            decreases outs@.len(),
        {
            let ghost before = layers_view(outs@);
            assert(before.len() == outs@.len());
            let l = outs.remove(0);
            assert(l@ == ov[u]) by {
                assert(before[0] == ov.skip(u)[0]);
            }
            assert(layers_view(outs@) =~= before.subrange(1, before.len() as int));
            self.layers.insert_historic(l);
            proof { u = u + 1; }
            assert(layers_view(outs@) =~= ov.skip(u));
            assert(base.historic + ov.take(u) =~= (base.historic + ov.take(u - 1)).push(ov[u - 1]));
        }
        assert(ov.skip(u).len() == 0);
        assert(ov.take(u) =~= ov);
        assert(timeline_wf(*self));
        assert(self.layers@ == (LayerMapModel { historic: kept_layers(hs, mk, n as int) + ov, ..old(self).layers@ }));
        assert(compacted(old(self).layers@, self.layers@, mk, ov, lo, hi, old(self).conf.compaction_target_size));
        proof {
            assert forall|k: int| 0 <= k < run@.len() implies versions_ordered(hs[(#[trigger] run@[k]) as int].versions)
                && versions_in_bounds(hs[run@[k] as int].versions, lo, hi) by {
                assert(mk[run@[k] as int]);
            }
            assert(run_valid(hs, run@));
            assert(is_level0_run(hs, run@));
            assert(compacted(old(self).layers@, self.layers@, run_marks(hs.len() as int, run@), ov,
                hs[run@[0] as int].lsn_range.0, hs[run@.last() as int].lsn_range.1, old(self).conf.compaction_target_size));
        }
        Ok(true)
    }
}

impl LayeredTimeline {
    /// Adds the new image layers `images`, then compacts level-0 deltas (see
    /// `compact_level0`).
    pub fn compact(&mut self, images: Vec<HistoricLayer>) -> (r: Result<bool, TimelineError>)
        requires
            timeline_wf(*old(self)),
        ensures
            timeline_wf(*final(self)),
            final(self).layers@.open_layer == old(self).layers@.open_layer,
            final(self).layers@.frozen_layers == old(self).layers@.frozen_layers,
            final(self).last_record_lsn == old(self).last_record_lsn,
            final(self).disk_consistent_lsn == old(self).disk_consistent_lsn,
            final(self).latest_gc_cutoff_lsn == old(self).latest_gc_cutoff_lsn,
            final(self).ancestor == old(self).ancestor,
            final(self).ancestor_lsn == old(self).ancestor_lsn,
            level0_compaction(LayerMapModel { historic: old(self).layers@.historic + layers_view(images@), ..old(self).layers@ },
                final(self).layers@, old(self).conf.compaction_threshold, old(self).conf.compaction_target_size, r),
            r is Err ==> r == Err::<bool, TimelineError>(TimelineError::CorruptLayer),
            final(self).conf == old(self).conf,
    {
        let ghost iv = layers_view(images@);
        let ghost base = self.layers@;
        let mut rest = images;
        let ghost mut u: int = 0;
        assert(layers_view(rest@) =~= iv.skip(0));
        while rest.len() > 0
            invariant
                timeline_wf(*self),
                0 <= u <= iv.len(),
                iv == layers_view(images@),
                layers_view(rest@) == iv.skip(u),
                self.layers@ == (LayerMapModel { historic: base.historic + iv.take(u), ..base }),
                self.last_record_lsn == old(self).last_record_lsn,
                self.disk_consistent_lsn == old(self).disk_consistent_lsn,
                self.latest_gc_cutoff_lsn == old(self).latest_gc_cutoff_lsn,
                self.ancestor == old(self).ancestor,
                self.ancestor_lsn == old(self).ancestor_lsn,
                base.open_layer == old(self).layers@.open_layer,
                base.frozen_layers == old(self).layers@.frozen_layers,
                base == old(self).layers@,
                self.conf == old(self).conf,
            decreases rest@.len(),
        {
            let ghost before = layers_view(rest@);
            assert(before.len() == rest@.len());
            let l = rest.remove(0);
            assert(l@ == iv[u]) by {
                assert(before[0] == iv.skip(u)[0]);
            }
            assert(layers_view(rest@) =~= before.subrange(1, before.len() as int));
            self.layers.insert_historic(l);
            proof { u = u + 1; }
            assert(layers_view(rest@) =~= iv.skip(u));
            assert(base.historic + iv.take(u) =~= (base.historic + iv.take(u - 1)).push(iv[u - 1]));
        }
        assert(iv.skip(u).len() == 0);
        assert(iv.take(u) =~= iv);
        self.compact_level0()
    }
}

/// A marked layer makes the removed list non-empty.
proof fn lemma_removed_nonempty(hs: Seq<LayerModel>, marks: Seq<bool>, n: int, j: int)
    requires
        0 <= j < n <= hs.len(),
        n <= marks.len(),
        marks[j],
    ensures
        removed_layers(hs, marks, n).len() > 0,
    decreases n,
{
    if j < n - 1 {
        lemma_removed_nonempty(hs, marks, n - 1, j);
    }
}

} // verus!
