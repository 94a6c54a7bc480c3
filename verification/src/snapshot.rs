//! Startup memory pack artifact names and the committed-record descriptor.
use vstd::prelude::*;

verus! {

/// File name of the per-snapshot startup memory pack stored under
/// `artifacts/{snapshot_id}/` in the snapshot repository.
pub const MEMORY_STARTUP_PACK_ARTIFACT: &'static str = "memory-startup.pack";

/// File name of the local first-touch trace the recorder emits next to the
/// snapshot artifacts. The publisher expands it into the startup manifest; it
/// never leaves the node as-is.
pub const MEMORY_STARTUP_TRACE_ARTIFACT: &'static str = "memory-startup.trace";

/// Startup pack descriptor persisted in the committed record when, and only
/// when, the pack was recorded and uploaded successfully.
#[derive(Clone, Debug, PartialEq, Eq)]
pub struct MemoryStartupPackInfo {
    pub pack_size: u64,
    pub mem_virtual_size: u64,
    /// Hex-encoded sha256 of the pack index section. The consumer verifies
    /// the received index against this digest before trusting any entry.
    pub index_sha256: String,
}

/// Runtime-only startup pack reference handed from the resolver to the sandbox
/// start: everything the daemon needs to register the pack's prefetch. Never
/// trusted on its own: the daemon verifies the pack's index against
/// `index_sha256` before importing any block.
#[derive(Clone, Debug, PartialEq, Eq)]
pub struct ResolvedStartupPack {
    pub url: String,
    pub pack_size: u64,
    pub index_sha256: String,
    pub mem_virtual_size: u64,
}

/// Gates a committed descriptor into a runtime reference, only when
/// consumption is enabled. Missing descriptors and disabled consumption fall
/// back to plain on-demand resume.
pub fn resolve_startup_pack_ref<F: FnOnce() -> String>(
    info: Option<&MemoryStartupPackInfo>,
    consume_enabled: bool,
    url: F,
) -> (res: Option<ResolvedStartupPack>)
    requires
        consume_enabled && info is Some ==> call_requires(url, ()),
    ensures
        res is Some <==> consume_enabled && info is Some,
        res matches Some(pack) ==> {
            &&& call_ensures(url, (), pack.url)
            &&& pack.pack_size == info->0.pack_size
            &&& pack.index_sha256 == info->0.index_sha256
            &&& pack.mem_virtual_size == info->0.mem_virtual_size
        },
{
    if !consume_enabled {
        return None;
    }
    match info {
        None => None,
        Some(info) => Some(
            ResolvedStartupPack {
                url: url(),
                pack_size: info.pack_size,
                index_sha256: info.index_sha256.clone(),
                mem_virtual_size: info.mem_virtual_size,
            },
        ),
    }
}

} // verus!
