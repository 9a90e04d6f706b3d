use schisma::gpu::{
    backend_candidates, create_processor, discover, parse_backend, Accelerator, BackendKind, CpuProcessor,
    GpuError,
};
use schisma::meter::{backend_from_u8, backend_to_u8, pack_voice, unpack_voice};
use schisma::voices::{VoicePhase, VoiceState};

#[test]
fn mismatched_buffers_are_rejected() {
    let accelerator = Accelerator::new(BackendKind::Cpu, false);
    assert!(matches!(
        accelerator.check_lengths(1, 0),
        Err(GpuError::LengthMismatch { .. })
    ));
    assert_eq!(accelerator.check_lengths(4, 4), Ok(()));
}

#[test]
fn cuda_request_falls_back_to_the_cpu() {
    let accelerator = Accelerator::new(BackendKind::Cuda, true);
    assert_eq!(accelerator.active(), BackendKind::Cpu);
    assert_eq!(accelerator.requested(), BackendKind::Cuda);
    assert_eq!(
        accelerator.fallback_reason(),
        Some("Cuda unavailable: Schisma was built without the cuda feature")
    );
    let cpu = Accelerator::new(BackendKind::Cpu, false);
    assert_eq!(cpu.fallback_reason(), None);
    assert_eq!(cpu.device_name(), "Scalar CPU fallback");
}

#[test]
fn auto_tries_the_platform_backend_first() {
    assert_eq!(
        backend_candidates(BackendKind::Auto, true),
        vec![BackendKind::Metal, BackendKind::Cuda, BackendKind::Cpu]
    );
    assert_eq!(
        backend_candidates(BackendKind::Auto, false),
        vec![BackendKind::Cuda, BackendKind::Metal, BackendKind::Cpu]
    );
    let auto = Accelerator::new(BackendKind::Auto, true);
    assert_eq!(
        auto.fallback_reason(),
        Some(
            "Metal unavailable: Schisma was built without the metal feature; \
             Cuda unavailable: Schisma was built without the cuda feature"
        )
    );
}

#[test]
fn discovery_reports_every_compute_api() {
    let statuses = discover();
    assert_eq!(statuses.len(), 3);
    assert_eq!(statuses[0].kind, BackendKind::Metal);
    assert!(!statuses[0].available);
    assert_eq!(statuses[0].device_name, "Unavailable");
    assert_eq!(statuses[0].detail, "Metal unavailable: Schisma was built without the metal feature");
    assert_eq!(statuses[2].kind, BackendKind::Cpu);
    assert!(statuses[2].available);
    assert_eq!(statuses[2].detail, "ready");
    assert_eq!(statuses[2].device_name, CpuProcessor.device_name());
    assert!(create_processor(BackendKind::Auto).is_err());
}

#[test]
fn backend_names_and_labels() {
    assert_eq!(parse_backend("CUDA"), BackendKind::Cuda);
    assert_eq!(parse_backend("Metal"), BackendKind::Metal);
    assert_eq!(parse_backend("cpu"), BackendKind::Cpu);
    assert_eq!(parse_backend("gpu"), BackendKind::Auto);
    assert_eq!(parse_backend(""), BackendKind::Auto);
    assert_eq!(BackendKind::Cpu.label(), "CPU");
    assert_eq!(BackendKind::Cuda.label(), "CUDA");
    assert_eq!(BackendKind::all().len(), 4);
    let error = GpuError::LengthMismatch { input: 10, output: 0 };
    assert_eq!(error.message(), "GPU input length 10 does not match output length 0");
}

#[test]
fn backend_codes_round_trip() {
    for kind in BackendKind::all() {
        assert_eq!(backend_from_u8(backend_to_u8(kind)), kind);
    }
    assert_eq!(backend_to_u8(BackendKind::Metal), 2);
    assert_eq!(backend_from_u8(200), BackendKind::Auto);
}

#[test]
fn voice_meter_words_round_trip() {
    let voice = VoiceState {
        id: 3,
        phase: VoicePhase::Released,
        channel: 2,
        note: 61,
        note_on_frame: 0,
        release_frame: 10,
        bound_to_channel: false,
    };
    let word = pack_voice(voice, 200, 17);
    assert_eq!(word, 0x8000_0000 | 61 | (200 << 8) | (17 << 16) | (1 << 24));
    let meter = unpack_voice(word);
    assert!(meter.active && meter.released);
    assert_eq!((meter.note, meter.pressure, meter.timbre), (61, 200, 17));
    assert_eq!(pack_voice(VoiceState::free(), 255, 255), 0);
    assert!(!unpack_voice(0).active);
}
