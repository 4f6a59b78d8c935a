//! The wire protocol: tagged query and response variants exchanged between
//! tree nodes, together with their mathematical views.

use vstd::prelude::*;

verus! {

/// Identifier of a tree node. The root is 1; later nodes receive consecutive
/// ids minted by the root on each pivot.
pub type TbonId = u32;

/// A command accompanied by the id of the node it addresses.
pub struct ClientInfo {
    pub id: TbonId,
    pub cmd: ClientCommand,
}

/// Commands addressed to a single client node. None are in use yet: the one
/// variant below only keeps the type inhabited until real commands exist.
pub enum ClientCommand {
    Reserved,
}

/// A query sent down the tree. `Join` and `Pivot` are bootstrap-only; the
/// four others are aggregation queries that fan out to every child.
#[derive(Debug)]
pub enum TbonQuery {
    Join(TbonId),
    Pivot(String),
    Count,
    Histogram(String),
    ListKeys,
    Values(String),
}

/// A response travelling back up the tree, one per query.
/// `Histogram` carries a wall-clock microsecond reading and the per-bucket
/// counters of the log-linear histogram; `ListKeys` a duplicate-free key set;
/// `Values` a map from host key to counter value with pairwise distinct keys.
#[derive(Debug)]
pub enum TbonResponse {
    Error(String),
    Okay,
    Count(u32),
    Pivot(TbonId, String),
    Histogram(u64, Vec<u64>),
    ListKeys(Vec<String>),
    Values(Vec<(String, u64)>),
}

/// Mathematical view of a query: strings become character sequences.
pub enum QueryView {
    Join(u32),
    Pivot(Seq<char>),
    Count,
    Histogram(Seq<char>),
    ListKeys,
    Values(Seq<char>),
}

/// Mathematical view of a response.
pub enum ResponseView {
    Error(Seq<char>),
    Okay,
    Count(u32),
    Pivot(u32, Seq<char>),
    Histogram(u64, Seq<u64>),
    ListKeys(Seq<Seq<char>>),
    Values(Seq<(Seq<char>, u64)>),
}

impl View for TbonQuery {
    type V = QueryView;

    open spec fn view(&self) -> QueryView {
        match self {
            TbonQuery::Join(id) => QueryView::Join(*id),
            TbonQuery::Pivot(addr) => QueryView::Pivot(addr@),
            TbonQuery::Count => QueryView::Count,
            TbonQuery::Histogram(key) => QueryView::Histogram(key@),
            TbonQuery::ListKeys => QueryView::ListKeys,
            TbonQuery::Values(key) => QueryView::Values(key@),
        }
    }
}

impl View for TbonResponse {
    type V = ResponseView;

    open spec fn view(&self) -> ResponseView {
        match self {
            TbonResponse::Error(msg) => ResponseView::Error(msg@),
            TbonResponse::Okay => ResponseView::Okay,
            TbonResponse::Count(n) => ResponseView::Count(*n),
            TbonResponse::Pivot(id, addr) => ResponseView::Pivot(*id, addr@),
            TbonResponse::Histogram(ts, counts) => ResponseView::Histogram(*ts, counts@),
            TbonResponse::ListKeys(keys) => ResponseView::ListKeys(
                keys@.map_values(|k: String| k@),
            ),
            TbonResponse::Values(entries) => ResponseView::Values(
                entries@.map_values(|e: (String, u64)| (e.0@, e.1)),
            ),
        }
    }
}

} // verus!
