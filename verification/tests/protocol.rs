//! Messages between processes, and the memory they share.

use pulpit_render::pdf::Region;
use pulpit_render::protocol::{
    announced_length, read_message, write_message, Priority, ProtocolError, RenderJob, RequestId,
    MAX_MESSAGE_BYTES, MAX_REGION_BYTES,
};
use pulpit_render::shm::{
    check_creation, check_length, check_name, check_opening, extract_pid_from_region_name,
    is_stale, plan_growth, RegionNamer,
};

fn job() -> RenderJob {
    RenderJob {
        id: RequestId(7),
        generation: 3,
        document: 1,
        page: 4,
        region: Region::full(),
        // 4K: decisively above the size of an inline frame, so this job maps
        // shared memory and every name check below applies to it.
        width: 3840,
        height: 2160,
        priority: Priority::Audience,
        with_annotations: false,
        region_name: "pulpit-shm-1".to_string(),
    }
}

#[test]
fn messages_round_trip() {
    let first = b"{\"Render\":{\"id\":7}}".as_slice();
    let second = b"{\"Cancel\":{\"id\":7}}".as_slice();
    let mut buffer = write_message(first).unwrap();
    buffer.extend(write_message(second).unwrap());

    let (payload, rest) = read_message(&buffer).unwrap();
    assert_eq!(payload, first);
    let (payload, rest) = read_message(&rest).unwrap();
    assert_eq!(payload, second);
    assert!(matches!(read_message(&rest), Err(ProtocolError::Closed)));
}

#[test]
fn an_implausible_length_is_refused_before_allocating() {
    let framed = u32::MAX.to_le_bytes();
    assert!(matches!(
        read_message(&framed),
        Err(ProtocolError::TooLarge {
            bytes: u32::MAX,
            ..
        })
    ));
}

#[test]
fn garbage_bytes_do_not_panic() {
    for seed in 0..64u32 {
        let mut framed = Vec::new();
        let payload: Vec<u8> = (0..32).map(|i| (i * 31 + seed) as u8).collect();
        framed.extend_from_slice(&(payload.len() as u32).to_le_bytes());
        framed.extend_from_slice(&payload);
        let _ = read_message(&framed);
    }
}

#[test]
fn truncated_payloads_report_closed() {
    let mut framed = Vec::new();
    framed.extend_from_slice(&64u32.to_le_bytes());
    framed.extend_from_slice(&[0u8; 10]);
    assert!(matches!(read_message(&framed), Err(ProtocolError::Closed)));
}

#[test]
fn jobs_are_validated_before_memory_is_mapped() {
    assert!(job().validate().is_ok());
    assert!(RenderJob { width: 0, ..job() }.validate().is_err());
    assert!(RenderJob {
        width: 20_000,
        height: 20_000,
        ..job()
    }
    .validate()
    .is_err());
    assert!(RenderJob {
        region_name: String::new(),
        ..job()
    }
    .validate()
    .is_err());
    assert!(
        RenderJob {
            region_name: "../../etc/passwd".to_string(),
            ..job()
        }
        .validate()
        .is_err(),
        "a worker must not be talked into mapping an arbitrary path"
    );
    assert!(RenderJob {
        region: Region::new(0, 0, 2_000_000, 1_000_000),
        ..job()
    }
    .validate()
    .is_err());

    // An inline job never maps memory, so the name checks do not apply to it:
    // the empty name is its normal state, and a hostile one is inert because
    // nothing ever opens it.
    let inline = RenderJob {
        width: 240,
        height: 135,
        region_name: String::new(),
        ..job()
    };
    assert!(inline.is_inline());
    assert!(inline.validate().is_ok());
    assert_eq!(inline.byte_len(), 240 * 135 * 4);
}

#[test]
fn priorities_order_the_way_the_spec_says() {
    let mut order = vec![
        Priority::Ancillary,
        Priority::Next,
        Priority::Audience,
        Priority::Presenter,
    ];
    order.sort();
    assert_eq!(
        order,
        vec![
            Priority::Audience,
            Priority::Presenter,
            Priority::Next,
            Priority::Ancillary
        ]
    );
}

#[test]
fn a_message_begins_with_its_length() {
    let framed = write_message(b"{}").unwrap();
    assert_eq!(framed, [2, 0, 0, 0, b'{', b'}']);
    assert_eq!(announced_length(&framed[..4]), Ok(2));
    let long = (MAX_MESSAGE_BYTES + 1).to_le_bytes();
    assert_eq!(
        announced_length(&long),
        Err(ProtocolError::TooLarge {
            bytes: MAX_MESSAGE_BYTES + 1,
            limit: MAX_MESSAGE_BYTES,
        })
    );
}

// --- Shared memory ----------------------------------------------------------

#[test]
fn a_region_that_is_too_small_is_refused_rather_than_mapped() {
    assert!(check_length("pulpit-1-a", 64, 4096).is_err());
    assert!(check_length("pulpit-1-a", 4096, 4096).is_ok());
}

#[test]
fn unsafe_names_and_sizes_are_refused() {
    assert!(check_creation("../escape", 64).is_err());
    assert!(check_creation("ok", 0).is_err());
    assert!(check_creation("ok", MAX_REGION_BYTES + 1).is_err());
    assert!(check_creation("ok", 64).is_ok());
    assert!(check_opening("also/bad", 64).is_err());
}

#[test]
fn regions_grow_when_there_is_need() {
    assert_eq!(plan_growth(128, 8192), Ok(true));
    assert_eq!(plan_growth(8192, 128), Ok(false));
    assert!(plan_growth(128, MAX_REGION_BYTES + 1).is_err());
}

#[test]
fn a_name_that_is_refused_is_quoted() {
    let Err(ProtocolError::Malformed(reason)) = check_name("a\n/b") else {
        panic!("a name with a separator is refused");
    };
    assert!(reason.contains("\"a\\n/b\""), "{reason}");
}

#[test]
fn a_pid_is_read_past_a_label_and_never_from_the_last_component() {
    // Render regions: the pid comes first.
    assert_eq!(
        extract_pid_from_region_name("pulpit-1234-abcdef"),
        Some(1234)
    );
    // Media rings: the pid comes after a non-numeric label.
    assert_eq!(
        extract_pid_from_region_name("pulpit-media-1234-0"),
        Some(1234)
    );
    // Not ours.
    assert_eq!(extract_pid_from_region_name("something-else-1234-0"), None);
    // A bare label with nothing after it names no process.
    assert_eq!(extract_pid_from_region_name("pulpit-media"), None);
    // The trailing component is a discriminator, not a pid, so a name that
    // ends in a number must not be read as owned by it.
    assert_eq!(extract_pid_from_region_name("pulpit-media-7"), None);
}

#[test]
fn stale_region_files_are_swept_but_current_process_files_are_kept() {
    assert!(is_stale("pulpit-4194305-0", 17, false));
    assert!(!is_stale("pulpit-17-test", 17, true));
}

#[test]
fn stale_media_rings_are_swept_too() {
    assert!(is_stale("pulpit-media-4194305-0", 17, false));
    assert!(!is_stale("pulpit-media-17-0", 17, true));
    assert!(!is_stale("pulpit-media-18-0", 17, true));
}

#[test]
fn the_name_of_a_region_says_whose_it_is() {
    let namer = RegionNamer::new(1234);
    let name = namer.next(5);
    assert_eq!(extract_pid_from_region_name(&name), Some(1234));
    assert_ne!(name, namer.next(6));
    assert!(check_name(&name).is_ok());
}
