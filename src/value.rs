//! Keys, LSNs, stored values and the state collected while reconstructing a page.
use vstd::prelude::*;

verus! {

/// A page identifier; keys are totally ordered and `key + 1` is the next key.
pub type Key = u128;

/// A log sequence number; `0` means absent.
pub type Lsn = u64;

/// A WAL record that can be applied to a page.
pub struct WalRecord {
    /// The record alone materializes the page: no earlier image is needed.
    pub will_init: bool,
    pub rec: Vec<u8>,
}

/// A stored page version: a full page image, or a WAL record.
pub enum Value {
    Image(Vec<u8>),
    WalRecord(WalRecord),
}

/// Mathematical model of a `Value`.
pub enum ValueModel {
    Image(Seq<u8>),
    Record(bool, Seq<u8>),
}

impl View for WalRecord {
    type V = (bool, Seq<u8>);

    open spec fn view(&self) -> (bool, Seq<u8>) {
        (self.will_init, self.rec@)
    }
}

impl View for Value {
    type V = ValueModel;

    open spec fn view(&self) -> ValueModel {
        match self {
            Value::Image(b) => ValueModel::Image(b@),
            Value::WalRecord(r) => ValueModel::Record(r.will_init, r.rec@),
        }
    }
}

/// One version of one page: the value stored for `key` at `lsn`.
pub struct PageVersion {
    pub key: Key,
    pub lsn: Lsn,
    pub value: Value,
}

/// Model of a page version: `(key, lsn, value)`.
pub type VersionModel = (Key, Lsn, ValueModel);

impl View for PageVersion {
    type V = VersionModel;

    open spec fn view(&self) -> VersionModel {
        (self.key, self.lsn, self.value@)
    }
}

/// `(k1, l1)` comes strictly before `(k2, l2)` in key-then-LSN order.
pub open spec fn version_lt(a: VersionModel, b: VersionModel) -> bool {
    a.0 < b.0 || (a.0 == b.0 && a.1 < b.1)
}

/// Versions strictly ascending by `(key, lsn)`: each pair occurs at most once.
pub open spec fn versions_sorted(vs: Seq<VersionModel>) -> bool {
    forall|i: int, j: int| 0 <= i < j < vs.len() ==> version_lt(#[trigger] vs[i], #[trigger] vs[j])
}

/// Model of a version list.
pub open spec fn versions_view(vs: Seq<PageVersion>) -> Seq<VersionModel> {
    vs.map_values(|v: PageVersion| v@)
}

/// Model of the reconstruction state: WAL records newest first, and the
/// newest base image found so far.
pub struct StateModel {
    pub records: Seq<(Lsn, (bool, Seq<u8>))>,
    pub img: Option<(Lsn, Seq<u8>)>,
}

/// What the read path has gathered so far for one page: WAL records,
/// newest first, and possibly a base image.
pub struct ValueReconstructState {
    pub records: Vec<(Lsn, WalRecord)>,
    pub img: Option<(Lsn, Vec<u8>)>,
}

impl View for ValueReconstructState {
    type V = StateModel;

    open spec fn view(&self) -> StateModel {
        StateModel {
            records: self.records@.map_values(|r: (Lsn, WalRecord)| (r.0, r.1@)),
            img: match self.img {
                Some(p) => Some((p.0, p.1@)),
                None => None,
            },
        }
    }
}

/// Outcome of asking one layer for reconstruction data.
#[derive(PartialEq, Eq, Structural, Clone, Copy, Debug)]
pub enum ValueReconstructResult {
    /// A base image or a WAL record that initializes the page was found.
    Complete,
    /// More history, from older layers, is still needed.
    Continue,
    /// The layer should have held the page, and does not.
    Missing,
}

} // verus!
