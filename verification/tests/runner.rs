use ematix_parquet_codec::adaptive::{
    finish_chunk, probe_chunk, probe_page_fused, run_adaptive_dict_chunk, AdaptiveDictPredicate,
    AdaptiveOutputKind, AdaptivePageInput, Dispatch, PageProbe,
};
use ematix_parquet_codec::encrypted::{decrypt_module, module_frame};
use ematix_parquet_codec::parallel::decode_target;
use ematix_parquet_codec::parallel::numa::{
    check_cpu_ids, node_id, node_of_worker, pin_current_thread_to_node, worker_count, NumaTopology,
};
use ematix_parquet_codec::CodecError;

/// Bit width 3: three fives, then 0 to 7.
fn first_page() -> Vec<u8> {
    vec![3, 0x06, 5, 0x03, 0x88, 0xC6, 0xFA]
}

/// Bit width 3: four ones.
fn second_page() -> Vec<u8> {
    vec![3, 0x08, 1]
}

fn predicate() -> AdaptiveDictPredicate {
    AdaptiveDictPredicate { dict_mask: vec![0, 1, 0, 0, 0, 1, 0, 0], probe_pages: 1 }
}

#[test]
fn the_fused_path_packs_the_rows_of_the_whole_chunk() {
    let (a, b) = (first_page(), second_page());
    let pages = [
        AdaptivePageInput { body: &a, num_values: 11 },
        AdaptivePageInput { body: &b, num_values: 4 },
    ];
    let out =
        run_adaptive_dict_chunk(&pages, &[0i32, 10, 20, 30, 40, 50, 60, 70], &predicate(), |_| {
            Dispatch::Fused
        })
        .unwrap();
    assert_eq!(out.dispatch, Dispatch::Fused);
    assert_eq!(out.total_rows, 15);
    match out.kind {
        AdaptiveOutputKind::Bitmap { bitmap, set_bits } => {
            // Rows 0, 1, 2, 4, 8 of the first page; rows 11 to 14 are the second.
            assert_eq!(bitmap, vec![0b0001_0111, 0b0111_1001]);
            assert_eq!(set_bits, 9);
        }
        other => panic!("expected a bitmap, got {other:?}"),
    }
}

#[test]
fn the_materialized_path_gives_as_many_values_as_bits() {
    let (a, b) = (first_page(), second_page());
    let pages = [
        AdaptivePageInput { body: &a, num_values: 11 },
        AdaptivePageInput { body: &b, num_values: 4 },
    ];
    let dict = [0i32, 10, 20, 30, 40, 50, 60, 70];
    let cfg = predicate();
    let probe = probe_chunk(&pages, &cfg).unwrap();
    assert_eq!(probe.pages_probed, 1);
    assert_eq!(probe.probe.rows_in, 11);
    assert_eq!(probe.probe.rows_passed, 5);
    let out = finish_chunk(&pages, &dict, &cfg, probe, Dispatch::Materialized).unwrap();
    match out.kind {
        AdaptiveOutputKind::Values(v) => assert_eq!(v, vec![50, 50, 50, 10, 50, 10, 10, 10, 10]),
        other => panic!("expected values, got {other:?}"),
    }
}

#[test]
fn a_chunk_without_rows_is_an_empty_bitmap() {
    let out = run_adaptive_dict_chunk(&[], &[1u8], &AdaptiveDictPredicate::new(vec![1]), |_| {
        Dispatch::Materialized
    })
    .unwrap();
    assert_eq!(out.dispatch, Dispatch::Fused);
    assert!(matches!(out.kind, AdaptiveOutputKind::Bitmap { set_bits: 0, .. }));
}

#[test]
fn a_page_that_cannot_be_read_ends_the_run() {
    let a = first_page();
    let pages = [AdaptivePageInput { body: &a, num_values: 12 }];
    let r = run_adaptive_dict_chunk(&pages, &[1u8; 8], &predicate(), |_| Dispatch::Fused);
    assert!(r.is_err());
    let r = run_adaptive_dict_chunk(
        &[AdaptivePageInput { body: &[], num_values: 1 }],
        &[1u8; 8],
        &predicate(),
        |_| Dispatch::Fused,
    );
    assert!(matches!(r, Err(CodecError::EmptyDictPageBody)));
}

#[test]
fn a_probe_counts_the_rows_that_pass() {
    let mut out = vec![0xEE];
    let p: PageProbe =
        probe_page_fused(&first_page(), 11, &predicate().dict_mask, &mut out).unwrap();
    assert_eq!((p.rows_in, p.rows_passed), (11, 5));
    assert_eq!(out, vec![0xEE, 0b0001_0111, 0b0000_0001]);
}

fn module() -> Vec<u8> {
    let mut bytes = vec![31, 0, 0, 0];
    bytes.extend_from_slice(&[1; 12]);
    bytes.extend_from_slice(b"abc");
    bytes.extend_from_slice(&[2; 16]);
    bytes
}

#[test]
fn modules_are_taken_apart() {
    let mut bytes = module();
    bytes.extend_from_slice(b"the next module");
    let f = module_frame(&bytes).unwrap();
    assert_eq!(f.nonce, &[1; 12]);
    assert_eq!(&f.sealed[..3], b"abc");
    assert_eq!(f.sealed.len(), 19);
    assert_eq!(f.total, 35);
    assert!(module_frame(&bytes[..3]).is_err());
    assert!(module_frame(&bytes[..34]).is_err());
    let mut small = vec![27, 0, 0, 0];
    small.extend_from_slice(&[0; 27]);
    match module_frame(&small) {
        Err(CodecError::Decompress(t)) => assert_eq!(
            t,
            "PME decrypt failed: ciphertext too short: got 27 bytes, need 28"
        ),
        other => panic!("expected Decompress, got {:?}", other.is_ok()),
    }
}

#[test]
fn modules_are_decrypted_by_what_the_caller_hands_in() {
    let open = |nonce: &[u8], aad: &[u8], sealed: &[u8]| -> Result<Vec<u8>, String> {
        if aad == b"bound" {
            let mut v = nonce[..1].to_vec();
            v.extend_from_slice(&sealed[..3]);
            Ok(v)
        } else {
            Err("tag mismatch".to_string())
        }
    };
    let (plain, used) = decrypt_module(&module(), b"bound", open).unwrap();
    assert_eq!(plain, vec![1, b'a', b'b', b'c']);
    assert_eq!(used, 35);
    match decrypt_module(&module(), b"other", open) {
        Err(CodecError::Decompress(t)) => assert_eq!(t, "PME decrypt failed: tag mismatch"),
        other => panic!("expected Decompress, got {other:?}"),
    }
}

#[test]
fn cancelled_targets_are_not_decoded() {
    let r: Result<usize, CodecError> = decode_target(true, (1, 2), |_, _| unreachable!());
    assert!(matches!(r, Err(CodecError::Cancelled)));
    assert_eq!(decode_target(false, (3, 4), |rg, col| Ok(10 * rg + col)).unwrap(), 34);
}

fn topology() -> NumaTopology {
    NumaTopology::from_nodes(vec![(1, vec![3, 2]), (0, vec![0, 1, 3])], vec![9])
}

#[test]
fn nodes_are_put_in_order() {
    let t = topology();
    assert_eq!(t.num_nodes(), 2);
    assert_eq!(t.nodes, vec![vec![0, 1, 3], vec![3, 2]]);
    assert_eq!(t.all_cpus(), vec![0, 1, 2, 3]);
    let alone = NumaTopology::from_nodes(vec![], vec![0, 4]);
    assert_eq!(alone.nodes, vec![vec![0, 4]]);
}

#[test]
fn node_names_carry_their_number() {
    assert_eq!(node_id("node0"), Some(0));
    assert_eq!(node_id("node12"), Some(12));
    assert_eq!(node_id("node"), None);
    assert_eq!(node_id("nodes1"), None);
    assert_eq!(node_id("has_cpu"), None);
    assert_eq!(node_id("node4294967296"), None);
}

#[test]
fn threads_are_pinned_to_a_node_that_exists() {
    let t = topology();
    let pinned = pin_current_thread_to_node(&t, 1, |cpus: &Vec<u32>| {
        assert_eq!(cpus, &vec![3, 2]);
        Ok(())
    });
    assert!(pinned.is_ok());
    match pin_current_thread_to_node(&t, 2, |_: &Vec<u32>| Ok(())) {
        Err(CodecError::InvalidInput(m)) => {
            assert_eq!(m, "numa node 2 out of range (have 2 nodes)")
        }
        other => panic!("expected InvalidInput, got {other:?}"),
    }
}

#[test]
fn affinity_sets_have_a_size() {
    assert!(check_cpu_ids(&[0, 1023], 1024).is_ok());
    match check_cpu_ids(&[0, 1024, 1025], 1024) {
        Err(CodecError::InvalidInput(m)) => assert_eq!(m, "cpu id 1024 ≥ CPU_SETSIZE (1024)"),
        other => panic!("expected InvalidInput, got {other:?}"),
    }
}

#[test]
fn workers_take_turns_on_the_nodes() {
    let t = topology();
    assert_eq!(worker_count(0, &t), 4);
    assert_eq!(worker_count(7, &t), 7);
    assert_eq!(worker_count(0, &NumaTopology { nodes: vec![vec![]] }), 1);
    assert_eq!((0..4).map(|w| node_of_worker(w, &t)).collect::<Vec<_>>(), vec![0, 1, 0, 1]);
}

#[test]
fn a_failed_probe_leaves_what_was_decoded() {
    let mut out = vec![9];
    assert!(probe_page_fused(&[], 3, &[0, 1], &mut out).is_err());
    assert_eq!(out, vec![9]);
    // The stream ends after three rows of eleven.
    let cut = [3u8, 0x06, 5];
    assert!(probe_page_fused(&cut, 11, &predicate().dict_mask, &mut out).is_err());
    assert_eq!(out, vec![9, 0b0000_0111, 0]);
}
