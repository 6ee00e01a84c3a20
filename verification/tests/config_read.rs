use bowties::cdi::{
    build_read_plan, extract_all_elements_with_addresses, Cdi, ConfigValue, DataElement, EventIdElement, IntElement,
    Segment, StringElement,
};
use bowties::config_read::{absorb_continuation, collect_read_values, fill_short_reply, next_continuation, Continuation, MAX_CONTINUATIONS};

fn int_el(size: u8, offset: i32) -> DataElement {
    DataElement::Int(IntElement { name: None, description: None, size, offset, min: None, max: None, default: None, map: None })
}

fn small_cdi() -> Cdi {
    Cdi {
        segments: vec![Segment {
            name: None,
            description: None,
            space: 0xFD,
            origin: 0,
            elements: vec![
                int_el(2, 0),
                DataElement::EventId(EventIdElement { name: None, description: None, offset: 0 }),
            ],
        }],
    }
}

#[test]
fn values_are_cut_from_one_batch_reply() {
    let cdi = small_cdi();
    let elems = extract_all_elements_with_addresses(&cdi);
    let plan = build_read_plan(&elems);
    assert_eq!(plan.batches.len(), 1);
    let reply = vec![0x01, 0x02, 5, 1, 1, 1, 0, 0, 0, 7];
    let out = collect_read_values("05.01.01.01.22.00", &elems, &plan, &vec![Ok(reply)]);
    assert_eq!(out.successful_reads, 2);
    assert_eq!(out.failed_reads, 0);
    assert!(out.abort_error.is_none());
    assert_eq!(out.values.len(), 2);
    assert_eq!(out.values[0].cache_key, "05.01.01.01.22.00:seg:0/elem:0");
    assert!(matches!(out.values[0].value, ConfigValue::Int { value: 258, size_bytes: 2 }));
    assert_eq!(out.values[0].memory_address, 0);
    assert_eq!(out.values[0].address_space, 0xFD);
    assert_eq!(out.values[1].cache_key, "05.01.01.01.22.00:seg:0/elem:1");
    assert_eq!(out.values[1].memory_address, 2);
    match &out.values[1].value {
        ConfigValue::EventId { value } => assert_eq!(*value, [5, 1, 1, 1, 0, 0, 0, 7]),
        _ => panic!("expected an event id"),
    }
}

#[test]
fn short_reply_fails_the_items_it_does_not_cover() {
    let cdi = small_cdi();
    let elems = extract_all_elements_with_addresses(&cdi);
    let plan = build_read_plan(&elems);
    let out = collect_read_values("n", &elems, &plan, &vec![Ok(vec![0x00, 0x10, 1, 2])]);
    assert_eq!(out.successful_reads, 1);
    assert_eq!(out.failed_reads, 1);
    assert!(matches!(out.values[0].value, ConfigValue::Int { value: 16, size_bytes: 2 }));
}

#[test]
fn failed_batch_aborts_with_advice() {
    let cdi = small_cdi();
    let elems = extract_all_elements_with_addresses(&cdi);
    let plan = build_read_plan(&elems);
    let out = collect_read_values("n", &elems, &plan, &vec![Err("Timeout".to_string())]);
    assert_eq!(out.successful_reads, 0);
    assert_eq!(out.failed_reads, 2);
    assert!(out.values.is_empty());
    assert_eq!(
        out.abort_error.as_deref(),
        Some("Configuration read failed: Timeout. Check your connection and try again.")
    );
}

#[test]
fn large_string_is_put_together_from_its_chunks() {
    let cdi = Cdi {
        segments: vec![Segment {
            name: None,
            description: None,
            space: 0xFD,
            origin: 0,
            elements: vec![DataElement::String(StringElement { name: None, description: None, size: 70, offset: 0 })],
        }],
    };
    let elems = extract_all_elements_with_addresses(&cdi);
    let plan = build_read_plan(&elems);
    assert_eq!(plan.batches.len(), 2);
    let mut first = vec![b'a'; 64];
    first[0] = b'H';
    let mut second = vec![b'b'; 6];
    second[2] = 0;
    let out = collect_read_values("n", &elems, &plan, &vec![Ok(first), Ok(second)]);
    assert_eq!(out.successful_reads, 1);
    assert_eq!(out.failed_reads, 0);
    let mut expected = String::from("H");
    expected.push_str(&"a".repeat(63));
    expected.push_str("bb");
    match &out.values[0].value {
        ConfigValue::String { value, size_bytes } => {
            assert_eq!(value, &expected);
            assert_eq!(*size_bytes, 70);
        }
        _ => panic!("expected text"),
    }
}

#[test]
fn missing_chunk_counts_as_a_failure() {
    let cdi = Cdi {
        segments: vec![Segment {
            name: None,
            description: None,
            space: 0xFD,
            origin: 0,
            elements: vec![DataElement::String(StringElement { name: None, description: None, size: 70, offset: 0 })],
        }],
    };
    let elems = extract_all_elements_with_addresses(&cdi);
    let plan = build_read_plan(&elems);
    let out = collect_read_values("n", &elems, &plan, &vec![Ok(vec![b'x'; 64])]);
    assert_eq!(out.successful_reads, 0);
    assert_eq!(out.failed_reads, 1);
}

/// Runs the continuation loop with `read` answering each read.
fn fill(data: &mut Vec<u8>, start: u32, total: u32, mut read: impl FnMut(u32, u8) -> Result<Vec<u8>, String>) -> u32 {
    let mut count = 0u32;
    loop {
        match next_continuation(data.len(), start, total, count) {
            Continuation::Done => break,
            Continuation::Read { address, size } => {
                if !absorb_continuation(data, read(address, size), &mut count) {
                    break;
                }
            }
        }
    }
    count
}

#[test]
fn continuation_reads_the_missing_tail() {
    let mut data: Vec<u8> = (0..40u8).collect();
    let mut calls = Vec::new();
    let n = fill(&mut data, 0x0C5C, 58, |a, s| {
        calls.push((a, s));
        Ok((40..58u8).collect())
    });
    assert_eq!(n, 1);
    assert_eq!(calls, vec![(0x0C5C + 40, 18)]);
    assert_eq!(data, (0..58u8).collect::<Vec<u8>>());
}

#[test]
fn small_continuation_chunks_advance_by_what_came() {
    let mut data = vec![0u8; 10];
    let mut addrs = Vec::new();
    let n = fill(&mut data, 0, 64, |a, _| {
        addrs.push(a);
        Ok(vec![0xAA; 20])
    });
    assert_eq!(n, 3);
    assert_eq!(data.len(), 70);
    assert_eq!(addrs, vec![10, 30, 50]);
}

#[test]
fn empty_or_failed_continuations_stop_without_counting() {
    let mut data = vec![0u8; 20];
    assert_eq!(fill(&mut data, 100, 64, |_, _| Ok(vec![])), 0);
    assert_eq!(data.len(), 20);
    let mut data = vec![0u8; 30];
    assert_eq!(fill(&mut data, 0, 58, |_, _| Err("Timeout waiting for datagram reply".to_string())), 0);
    assert_eq!(data.len(), 30);
}

#[test]
fn full_replies_and_the_continuation_cap() {
    let mut data = vec![0u8; 64];
    assert_eq!(fill(&mut data, 0, 64, |_, _| panic!("no read expected")), 0);
    let mut data = vec![0u8; 10];
    assert_eq!(fill(&mut data, 0, 200, |_, _| Ok(vec![0xFF])), MAX_CONTINUATIONS);
    assert_eq!(data.len(), 10 + MAX_CONTINUATIONS as usize);
    let mut data = vec![0u8; 10];
    let mut sizes = Vec::new();
    fill(&mut data, 0, 200, |_, s| {
        sizes.push(s);
        Ok(vec![0; s as usize])
    });
    assert!(sizes.iter().all(|&s| s <= 64));
    assert_eq!(sizes[0], 64);
}

#[test]
fn cancelled_reads_stop_with_a_message() {
    assert!(bowties::config_read::check_cancellation(false).is_ok());
    assert_eq!(bowties::config_read::check_cancellation(true).unwrap_err(), "Operation cancelled by user");
}

#[test]
fn single_reads_are_planned_by_path() {
    let cdi = small_cdi();
    let elems = extract_all_elements_with_addresses(&cdi);
    let path = vec!["seg:0".to_string(), "elem:1".to_string()];
    let r = bowties::config_read::plan_single_read(&elems, &path).ok().unwrap();
    assert_eq!((r.index, r.address, r.space, r.size), (1, 2, 0xFD, 8));
    let missing = vec!["seg:0".to_string(), "elem:9".to_string()];
    assert_eq!(
        bowties::config_read::plan_single_read(&elems, &missing).err().unwrap(),
        "Element not found at path: seg:0/elem:9"
    );
    let big = Cdi {
        segments: vec![Segment {
            name: None,
            description: None,
            space: 0xFD,
            origin: 0,
            elements: vec![DataElement::String(StringElement { name: None, description: None, size: 70, offset: 0 })],
        }],
    };
    let elems = extract_all_elements_with_addresses(&big);
    assert_eq!(
        bowties::config_read::plan_single_read(&elems, &vec!["seg:0".to_string(), "elem:0".to_string()]).err().unwrap(),
        "Element size 70 exceeds maximum 64 bytes"
    );
}

#[test]
fn fill_short_reply_follows_the_replies() {
    let mut data = vec![0u8; 10];
    let replies = vec![Ok(vec![0xAA; 20]), Ok(vec![0xAA; 20]), Ok(vec![0xAA; 20]), Ok(vec![0xAA; 20])];
    let (n, reads) = fill_short_reply(&mut data, 0, 64, &replies);
    assert_eq!(n, 3);
    assert_eq!(data.len(), 70);
    assert_eq!(reads, vec![(10, 54), (30, 34), (50, 14)]);

    let mut data = vec![0u8; 20];
    let (n, reads) = fill_short_reply(&mut data, 100, 64, &vec![Ok(vec![])]);
    assert_eq!((n, data.len()), (0, 20));
    assert_eq!(reads, vec![(120, 44)]);

    let mut data = vec![0u8; 30];
    let (n, _) = fill_short_reply(&mut data, 0, 58, &vec![Err("Timeout waiting for datagram reply".to_string())]);
    assert_eq!((n, data.len()), (0, 30));

    let mut data = vec![0u8; 64];
    let (n, reads) = fill_short_reply(&mut data, 0, 64, &vec![]);
    assert_eq!((n, data.len()), (0, 64));
    assert!(reads.is_empty());

    let mut data = vec![0u8; 10];
    let ones: Vec<Result<Vec<u8>, String>> = (0..10).map(|_| Ok(vec![0xFF])).collect();
    let (n, reads) = fill_short_reply(&mut data, 0, 200, &ones);
    assert_eq!(n, MAX_CONTINUATIONS);
    assert_eq!(data.len(), 10 + MAX_CONTINUATIONS as usize);
    assert!(reads.iter().all(|r| r.1 <= 64));
    assert_eq!(reads[0], (10, 64));
}
