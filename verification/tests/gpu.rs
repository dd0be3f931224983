//! Device decisions: sizes, readback and memory import.

use mir::gpu::{
    choose_memory_type, copy_frame, find_obstacle, first_memory_type, is_direct, pad_uniform,
    storage_size, usable_len, workgroups, Cleanup, DeviceFacts, FrameReader, GpuError, HostBlock,
    Import, ImportAction, ImportError, ImportEvent, ImportVia, MapOutcome,
};

const BLOCK: HostBlock = HostBlock { address: 0x4000, size: 5000, alloc_size: 8192 };

const READY: DeviceFacts =
    DeviceFacts { vulkan: true, enabled: true, supported: true, align: 4096 };

fn abandoned(action: Option<ImportAction>) -> (Cleanup, String) {
    match action {
        Some(ImportAction::Abandon { cleanup, error }) => (cleanup, error.message()),
        other => panic!("unexpected action: {other:?}"),
    }
}

fn probed(type_bits: u32) -> ImportEvent {
    ImportEvent::Probed { taken: Ok((type_bits, 12288)) }
}

fn created(type_bits: u32) -> ImportEvent {
    ImportEvent::Created { allowed: Ok(type_bits), flags: vec![1, 6, 7, 2] }
}

fn opened(via: ImportVia) -> Import {
    let mut import = Import::open(via, BLOCK);
    let action = import.step(ImportEvent::Device { facts: READY });
    assert!(matches!(action, Some(ImportAction::Probe)));
    import
}

#[test]
fn errors_have_their_messages() {
    let e = || "why".to_string();
    assert_eq!(GpuError::NoAdapter.message(), "no wgpu adapter available");
    assert_eq!(GpuError::Device(e()).message(), "wgpu device: why");
    assert_eq!(GpuError::Compile(e()).message(), "shader compile: why");
    assert_eq!(GpuError::Function(e()).message(), "shader function: why");
    assert_eq!(GpuError::Internal(e()).message(), "gpu internal: why");
}

#[test]
fn sizes_round_up() {
    assert_eq!((storage_size(0), storage_size(4), storage_size(5)), (4, 4, 5));
    assert_eq!((usable_len(3, 4), usable_len(9, 4)), (3, 4));
    assert_eq!(pad_uniform(&[1, 2, 3]), vec![1, 2, 3, 0, 0, 0, 0, 0, 0, 0, 0, 0, 0, 0, 0, 0]);
    assert_eq!(pad_uniform(&[7; 16]), vec![7; 16]);
    assert_eq!(pad_uniform(&[7; 17]).len(), 32);
    assert!(pad_uniform(&[]).is_empty());
}

#[test]
fn workgroups_cover_the_grid() {
    assert_eq!(workgroups((100, 64, 1), (64, 64, 1)), (2, 1, 1));
    assert_eq!(workgroups((0, 65, 7), (8, 64, 0)), (0, 2, 7));
}

#[test]
fn mapping_is_direct_on_mappable_storage_of_our_own() {
    assert!(is_direct(true, false));
    assert!(!is_direct(true, true) && !is_direct(false, false) && !is_direct(false, true));
}

#[test]
fn frames_arrive_one_fetch_late() {
    let mut reader = FrameReader::new();
    // First fetch: a staging buffer is made and the frame requested.
    assert!(reader.begin(64));
    assert!(!reader.awaits());
    assert!(reader.request());
    // Second fetch: the frame is there.
    assert!(!reader.begin(64));
    assert!(reader.awaits());
    assert!(reader.resolve(MapOutcome::Ready));
    assert!(reader.request());
    // Third fetch: still under way, so nothing new is requested.
    assert!(!reader.begin(64));
    assert!(!reader.resolve(MapOutcome::Waiting));
    assert!(!reader.request());
    // Fourth fetch: it failed, and is requested again.
    assert!(!reader.resolve(MapOutcome::Failed));
    assert!(reader.request());
    // A frame of another size forgets what was under way.
    assert!(reader.begin(128));
    assert!(!reader.awaits());
    assert!(!reader.resolve(MapOutcome::Ready));
}

#[test]
fn frames_are_copied_as_far_as_they_reach() {
    let mut dst = vec![1, 2, 3];
    copy_frame(&mut dst, &[9]);
    assert_eq!(dst, vec![9, 2, 3]);
    copy_frame(&mut dst, &[8; 10]);
    assert_eq!(dst, vec![8, 8, 8]);
}

#[test]
fn obstacles_are_told_apart() {
    let host = |facts| find_obstacle(ImportVia::HostPointer, BLOCK, facts).map(|e| e.message());
    assert_eq!(host(READY), None);
    assert_eq!(
        host(DeviceFacts { vulkan: false, ..READY }).unwrap(),
        "backend is not vulkan"
    );
    assert_eq!(
        host(DeviceFacts { enabled: false, ..READY }).unwrap(),
        "VK_EXT_external_memory_host supported but not enabled at device creation"
    );
    assert_eq!(
        host(DeviceFacts { enabled: false, supported: false, ..READY }).unwrap(),
        "VK_EXT_external_memory_host unsupported by this driver"
    );
    assert_eq!(host(DeviceFacts { align: 0, ..READY }).unwrap(), "block not aligned to 0");
    assert_eq!(
        host(DeviceFacts { align: 65536, ..READY }).unwrap(),
        "block not aligned to 65536"
    );
    let partial = HostBlock { alloc_size: 5000, ..BLOCK };
    assert_eq!(
        find_obstacle(ImportVia::HostPointer, partial, READY).unwrap().message(),
        "block allocation not a multiple of 4096"
    );
    // A hardware buffer has no alignment to meet.
    let facts = DeviceFacts { align: 0, ..READY };
    assert!(find_obstacle(ImportVia::HardwareBuffer, partial, facts).is_none());
    let facts = DeviceFacts { enabled: false, ..READY };
    assert_eq!(
        find_obstacle(ImportVia::HardwareBuffer, BLOCK, facts).unwrap().message(),
        "VK_ANDROID_external_memory_android_hardware_buffer not enabled on device"
    );
}

#[test]
fn memory_types_with_the_wanted_properties_come_first() {
    let flags = [1, 6, 7, 2];
    assert_eq!(choose_memory_type(0b1111, &flags), Some(1));
    assert_eq!(choose_memory_type(0b1101, &flags), Some(2));
    assert_eq!(choose_memory_type(0b1001, &flags), Some(0));
    assert_eq!(choose_memory_type(0b1000, &flags), Some(3));
    assert_eq!(choose_memory_type(0b1_0000, &flags), None);
    assert_eq!(first_memory_type(1 << 31, 32), Some(31));
    assert_eq!(first_memory_type(0b1100, 32), Some(2));
    assert_eq!(first_memory_type(0, 32), None);
}

#[test]
fn an_import_runs_through_to_its_buffer() {
    let mut import = opened(ImportVia::HostPointer);
    assert!(matches!(import.step(probed(0b0110)), Some(ImportAction::Create { size: 8192 })));
    assert!(matches!(
        import.step(created(0b1100)),
        Some(ImportAction::Allocate { size: 8192, memory_type: 2 })
    ));
    assert!(matches!(
        import.step(ImportEvent::Allocated { outcome: Ok(()) }),
        Some(ImportAction::Bind)
    ));
    assert!(matches!(
        import.step(ImportEvent::Bound { outcome: Ok(()) }),
        Some(ImportAction::Adopt { usable: 5000 })
    ));
    // It is over.
    assert!(import.step(ImportEvent::Bound { outcome: Ok(()) }).is_none());
}

#[test]
fn a_hardware_buffer_is_allocated_at_the_size_of_the_driver() {
    let mut import = opened(ImportVia::HardwareBuffer);
    assert!(matches!(import.step(probed(0b1001)), Some(ImportAction::Create { size: 8192 })));
    assert!(matches!(
        import.step(created(0b1001)),
        Some(ImportAction::Allocate { size: 12288, memory_type: 0 })
    ));
    let (cleanup, why) =
        abandoned(import.step(ImportEvent::Allocated { outcome: Err("full".to_string()) }));
    assert_eq!(cleanup, Cleanup { destroy_buffer: true, free_memory: false });
    assert_eq!(why, "allocate_memory(import AHB): full");
}

#[test]
fn a_failed_import_releases_what_it_has_made() {
    let lost = || Err("lost".to_string());
    let nothing = Cleanup { destroy_buffer: false, free_memory: false };
    let buffer = Cleanup { destroy_buffer: true, free_memory: false };
    let both = Cleanup { destroy_buffer: true, free_memory: true };

    let mut import = Import::open(ImportVia::HostPointer, BLOCK);
    let facts = DeviceFacts { vulkan: false, ..READY };
    let (cleanup, why) = abandoned(import.step(ImportEvent::Device { facts }));
    assert_eq!((cleanup, why.as_str()), (nothing, "backend is not vulkan"));

    let mut import = opened(ImportVia::HostPointer);
    let (cleanup, why) = abandoned(import.step(ImportEvent::Probed { taken: Err("lost".to_string()) }));
    assert_eq!((cleanup, why.as_str()), (nothing, "host pointer properties: lost"));

    let mut import = opened(ImportVia::HostPointer);
    import.step(probed(0b0010));
    let event = ImportEvent::Created { allowed: Err("lost".to_string()), flags: vec![] };
    let (cleanup, why) = abandoned(import.step(event));
    assert_eq!((cleanup, why.as_str()), (nothing, "create_buffer: lost"));

    let mut import = opened(ImportVia::HostPointer);
    import.step(probed(0b0010));
    let (cleanup, why) = abandoned(import.step(created(0b0100)));
    assert_eq!((cleanup, why.as_str()), (buffer, "no importable memory type"));

    let mut import = opened(ImportVia::HostPointer);
    import.step(probed(0b0010));
    import.step(created(0b0010));
    let (cleanup, why) = abandoned(import.step(ImportEvent::Allocated { outcome: lost() }));
    assert_eq!((cleanup, why.as_str()), (buffer, "allocate_memory(import): lost"));

    let mut import = opened(ImportVia::HostPointer);
    import.step(probed(0b0010));
    import.step(created(0b0010));
    import.step(ImportEvent::Allocated { outcome: Ok(()) });
    let (cleanup, why) = abandoned(import.step(ImportEvent::Bound { outcome: lost() }));
    assert_eq!((cleanup, why.as_str()), (both, "bind_buffer_memory: lost"));
}

#[test]
fn events_out_of_turn_change_nothing() {
    let mut import = opened(ImportVia::HardwareBuffer);
    assert!(import.step(ImportEvent::Bound { outcome: Ok(()) }).is_none());
    assert!(import.step(ImportEvent::Device { facts: READY }).is_none());
    let (_, why) = abandoned(import.step(ImportEvent::Probed { taken: Err("no".to_string()) }));
    assert_eq!(why, "AHardwareBuffer properties: no");
    assert_eq!(ImportError::NoMemoryType.message(), "no importable memory type");
}
