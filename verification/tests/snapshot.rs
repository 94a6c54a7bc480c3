use memory_startup::digest::{hex, hex_sha256};
use memory_startup::shutdown::{
    startup_manifest_abort_requested, startup_manifest_shutdown_requested, DrainStep,
    StartupManifestShutdown, StartupManifestTaskGuard,
};
use memory_startup::snapshot::{
    resolve_startup_pack_ref, MemoryStartupPackInfo, MEMORY_STARTUP_PACK_ARTIFACT,
    MEMORY_STARTUP_TRACE_ARTIFACT,
};

#[test]
fn resolve_startup_pack_ref_gates_only_consumption() {
    let info = MemoryStartupPackInfo {
        pack_size: 4096,
        mem_virtual_size: 1 << 30,
        index_sha256: "ab".repeat(32),
    };
    // Consumption disabled: no reference.
    assert!(resolve_startup_pack_ref(Some(&info), false, || "s3://b/k".to_string()).is_none());
    // No descriptor: no reference.
    assert!(resolve_startup_pack_ref(None, true, || "s3://b/k".to_string()).is_none());
    // Any descriptor with consumption enabled resolves; the daemon rejects
    // non-manifest objects by magic instead.
    let resolved = resolve_startup_pack_ref(Some(&info), true, || {
        "s3://bucket/aenv-bk/artifacts/id/memory-startup.pack".to_string()
    })
    .expect("a descriptor with consumption enabled must resolve");
    assert_eq!(resolved.pack_size, 4096);
    assert_eq!(resolved.mem_virtual_size, 1 << 30);
    assert_eq!(resolved.index_sha256, "ab".repeat(32));
    assert!(resolved.url.ends_with("memory-startup.pack"));
}

#[test]
fn artifact_names() {
    assert_eq!(MEMORY_STARTUP_PACK_ARTIFACT, "memory-startup.pack");
    assert_eq!(MEMORY_STARTUP_TRACE_ARTIFACT, "memory-startup.trace");
}

#[test]
fn digests_are_lower_case_hex() {
    assert_eq!(hex(&[0x00, 0x9f, 0xa0, 0xff, 0x5c]), "009fa0ff5c");
    assert_eq!(
        hex_sha256(b""),
        "e3b0c44298fc1c149afbf4c8996fb92427ae41e4649b934ca495991b7852b855"
    );
    assert_eq!(
        hex_sha256(b"abc"),
        "ba7816bf8f01cfea414140de5dae2223b00361a396177a9cb410ff61f20015ad"
    );
}

#[test]
fn drain_waits_for_the_last_continuation() {
    let mut state = StartupManifestShutdown::new();
    assert!(!startup_manifest_shutdown_requested(&state));
    let first = StartupManifestTaskGuard::new(&mut state);
    let second = StartupManifestTaskGuard::new(&mut state);
    state.request_drain();
    assert!(startup_manifest_shutdown_requested(&state));
    assert_eq!(state.poll_drain(false), DrainStep::Wait);
    assert!(!first.finish(&mut state));
    assert_eq!(state.poll_drain(false), DrainStep::Wait);
    assert!(second.finish(&mut state));
    assert_eq!(state.poll_drain(false), DrainStep::Drained);
    // a timeout that finds nothing in flight cancels nothing
    assert_eq!(state.poll_drain(true), DrainStep::Drained);
    assert!(!startup_manifest_abort_requested(&state));
}

#[test]
fn drain_timeout_aborts_what_is_left() {
    let mut state = StartupManifestShutdown::new();
    let guard = StartupManifestTaskGuard::new(&mut state);
    state.request_drain();
    assert_eq!(state.poll_drain(true), DrainStep::Abort);
    assert!(startup_manifest_abort_requested(&state));
    assert!(guard.finish(&mut state));
    // requests are final
    assert!(startup_manifest_abort_requested(&state));
    assert!(startup_manifest_shutdown_requested(&state));
    assert_eq!(state.poll_drain(true), DrainStep::Drained);
}
