//! Properties of the asset store that hold across its operations.

use vstd::prelude::*;

use crate::assets::asset_path::AssetPathView;
use crate::assets::data::AssetsDataView;
use crate::assets::kind::AssetView;

verus! {

/// The store after `add` gave handle `h` to `asset` at `path`.
pub open spec fn after_add(v: AssetsDataView, h: u32, path: AssetPathView, asset: AssetView) -> AssetsDataView {
    AssetsDataView { index: v.index.insert(h, path), assets: v.assets.insert(path, asset), ..v }
}

/// What `add` stores can be read back by the handle it returns, and every
/// other handle still leads where it led, unless its path was the one
/// written over.
pub proof fn lemma_add_then_lookup(v: AssetsDataView, h: u32, path: AssetPathView, asset: AssetView)
    ensures
        after_add(v, h, path, asset).lookup(h) == Some(asset),
        forall|id: u32|
            id != h && v.index.contains_key(id) && v.index[id] != path ==> #[trigger] after_add(
                v,
                h,
                path,
                asset,
            ).lookup(id) == v.lookup(id),
{
}

/// The store after a renaming of handle `h` from `from` to `to` was
/// entered in the index and the asset was moved.
pub open spec fn after_rename(v: AssetsDataView, h: u32, from: AssetPathView, to: AssetPathView) -> AssetsDataView {
    AssetsDataView {
        index: v.index.insert(h, to),
        assets: v.assets.remove(from).insert(to, v.assets[from]),
        ..v
    }
}

/// Renaming an asset keeps it behind its handle: once the index holds the
/// new path and the asset has been moved there, the handle leads to the
/// same asset as before.
pub proof fn lemma_rename_keeps_asset(v: AssetsDataView, h: u32, to: AssetPathView)
    requires
        v.lookup(h) is Some,
    ensures
        after_rename(v, h, v.index[h], to).lookup(h) == v.lookup(h),
{
}

/// What `set` stores in place of an asset is read back by its handle.
pub proof fn lemma_set_then_lookup(v: AssetsDataView, h: u32, asset: AssetView)
    requires
        v.lookup(h) is Some,
    ensures
        (AssetsDataView { assets: v.assets.insert(v.index[h], asset), ..v }).lookup(h) == Some(
            asset,
        ),
{
}

} // verus!
