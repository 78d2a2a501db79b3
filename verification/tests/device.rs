use gemma4_serving::load::{
    bf16_column, global_scale, layer_plan, open_tensors, outer_plan, packed_f4, read_f32, Reading,
    ScaleFault,
};
use gemma4_serving::runtime::{
    causal_row, embedding_offset, full_attention_steps, kind_of_layer, position_embedding_starts,
    position_offsets, rope_lane, run_stages, sliding_mask_row, LayerKind, PageStep, RopeLane, Stage,
};
use gemma4_serving::tiling::{opposite_lane, scales_fit, tile_starts};

#[test]
fn offsets_are_in_bytes() {
    let offsets = position_offsets(1537);
    assert_eq!(offsets.kv_sliding, 513 * 4096);
    assert_eq!(offsets.kv_full, 1024);
    assert_eq!(offsets.rope_sliding, 1537 * 512);
    assert_eq!(offsets.rope_full, 1537 * 1024);
    assert_eq!(embedding_offset(0), 0);
    assert_eq!(embedding_offset(262143), 2013258240);
}

#[test]
fn masks_are_causal() {
    assert_eq!(causal_row(1, 4), vec![true, true, false, false]);
    assert_eq!(sliding_mask_row(5), 5);
    assert_eq!(sliding_mask_row(1023), 1023);
    assert_eq!(sliding_mask_row(5000), 1023);
}

#[test]
fn sliding_slots_hold_the_last_positions() {
    let mut slots = vec![None; 1024];
    for pos in 0..3000usize {
        slots[pos % 1024] = Some(pos);
        let mask = causal_row(sliding_mask_row(pos), 1024);
        if pos % 97 != 0 && pos != 1023 && pos != 1024 {
            continue;
        }
        let mut seen: Vec<usize> = (0..1024).filter(|&slot| mask[slot]).filter_map(|slot| slots[slot]).collect();
        seen.sort();
        let first = (pos + 1).saturating_sub(1024);
        assert_eq!(seen, (first..=pos).collect::<Vec<_>>());
    }
}

#[test]
fn full_layers_see_all_pages() {
    assert_eq!(
        full_attention_steps(1030),
        vec![
            PageStep { page: 0, row: None, first: true },
            PageStep { page: 1, row: None, first: false },
            PageStep { page: 2, row: Some(6), first: false },
        ]
    );
    assert_eq!(full_attention_steps(0), vec![PageStep { page: 0, row: Some(0), first: true }]);
    for pos in [0usize, 511, 512, 2000] {
        let seen: usize = full_attention_steps(pos).iter().map(|step| step.row.map_or(512, |row| row + 1)).sum();
        assert_eq!(seen, pos + 1);
    }
}

#[test]
fn every_sixth_layer_is_full() {
    let full: Vec<usize> = (0..20).filter(|&layer| kind_of_layer(layer) == LayerKind::Full).collect();
    assert_eq!(full, vec![5, 11, 17]);
}

#[test]
fn positions_run_through_the_layers() {
    let stages = run_stages(6, 1500, 4096, 8, true).unwrap();
    assert_eq!(stages.len(), 7);
    assert_eq!(stages[0], Stage::Sliding { layer: 0, mask_row: 1023 });
    assert_eq!(stages[5], Stage::Full { layer: 5, page: 2 });
    assert_eq!(stages[6], Stage::Logits);
    assert_eq!(run_stages(6, 0, 4096, 8, false).unwrap().len(), 6);
    assert_eq!(run_stages(6, 4096, 4096, 8, false).unwrap_err(), "position exceeds runtime context");
    assert_eq!(run_stages(6, 1024, 4096, 2, false).unwrap_err(), "position exceeds full-attention cache");
}

#[test]
fn position_embeddings_stay_in_the_table() {
    assert_eq!(position_embedding_starts(0, 0, 10), (0, 3840));
    assert_eq!(position_embedding_starts(3, 2, 10), (3 * 7680, 2 * 7680 + 3840));
    assert_eq!(position_embedding_starts(50, 60, 10), (9 * 7680, 9 * 7680 + 3840));
}

#[test]
fn rotation_lanes_come_in_two_halves() {
    assert_eq!(rope_lane(0, 8, 4), RopeLane { pair: 0, turned: true, negated: true });
    assert_eq!(rope_lane(1, 8, 4), RopeLane { pair: 1, turned: true, negated: true });
    assert_eq!(rope_lane(2, 8, 4), RopeLane { pair: 2, turned: false, negated: false });
    assert_eq!(rope_lane(5, 8, 4), RopeLane { pair: 1, turned: true, negated: false });
    assert_eq!(rope_lane(7, 8, 4), RopeLane { pair: 3, turned: false, negated: false });
    for lane in 0..8usize {
        assert_eq!(opposite_lane(opposite_lane(lane, 8), 8), lane);
        assert_eq!(opposite_lane(lane, 8), (lane + 4) % 8);
    }
}

#[test]
fn tiles_cover_an_axis() {
    assert_eq!(tile_starts(60, 8), vec![0, 8, 16, 24, 32, 40, 48, 56]);
    assert_eq!(tile_starts(120, 12).len(), 10);
    assert_eq!(tile_starts(0, 4), Vec::<usize>::new());
    assert_eq!(tile_starts(3, 4), vec![0]);
    for length in 0..50usize {
        for tile in 1..12usize {
            let mut hits = vec![0; length];
            for start in tile_starts(length, tile) {
                for place in start..(start + tile).min(length) {
                    hits[place] += 1;
                }
            }
            assert!(hits.iter().all(|&n| n == 1));
        }
    }
}

#[test]
fn block_scales_fit_the_register_file() {
    assert!(scales_fit(4, 240));
    assert!(scales_fit(8, 240));
    assert!(scales_fit(12, 120));
    assert!(scales_fit(16, 120));
    assert!(!scales_fit(18, 120));
}

fn tensors_file(entries: &[(&str, &str, &[usize], &[u8])]) -> Vec<u8> {
    let mut header = String::from("{");
    let mut data = Vec::new();
    for (i, (name, dtype, shape, bytes)) in entries.iter().enumerate() {
        if i > 0 {
            header.push(',');
        }
        let start = data.len();
        data.extend_from_slice(bytes);
        header.push_str(&format!(
            "\"{name}\":{{\"dtype\":\"{dtype}\",\"shape\":{shape:?},\"data_offsets\":[{start},{}]}}",
            data.len()
        ));
    }
    header.push('}');
    while header.len() % 8 != 0 {
        header.push(' ');
    }
    let mut file = (header.len() as u64).to_le_bytes().to_vec();
    file.extend_from_slice(header.as_bytes());
    file.extend_from_slice(&data);
    file
}

#[test]
fn tensors_are_read_in_their_form() {
    let scale = 2.5f32.to_le_bytes();
    let file = tensors_file(&[
        ("scale", "F32", &[1], &scale),
        ("column", "BF16", &[2, 1], &[1, 2, 3, 4]),
        ("packed", "U8", &[2, 3], &[1, 2, 3, 4, 5, 6]),
    ]);
    let tensors = open_tensors(&file).unwrap();
    assert_eq!(bf16_column(&tensors, "column", 2).unwrap(), &[1, 2, 3, 4]);
    assert_eq!(
        bf16_column(&tensors, "column", 3).unwrap_err(),
        "column is BF16 [2, 1], expected BF16 [3, 1]"
    );
    assert_eq!(packed_f4(&tensors, "packed", 2, 6).unwrap(), &[1, 2, 3, 4, 5, 6]);
    assert_eq!(packed_f4(&tensors, "scale", 2, 6).unwrap_err(), "scale is F32 [1], expected U8 [2, 3]");
    assert_eq!(read_f32(&tensors, "scale").unwrap(), 2.5f32.to_bits());
    assert_eq!(read_f32(&tensors, "packed").unwrap_err(), "packed is U8, not a scalar f32 tensor");
    assert_eq!(read_f32(&tensors, "gone").unwrap_err(), "TensorNotFound(\"gone\")");
    assert_eq!(global_scale(&tensors, "scale").unwrap(), 2.5f32.to_bits());
}

#[test]
fn scales_must_have_a_reciprocal() {
    for value in [0.0f32, -0.0, f32::INFINITY, f32::NEG_INFINITY, f32::NAN] {
        let file = tensors_file(&[("s", "F32", &[], &value.to_le_bytes())]);
        let tensors = open_tensors(&file).unwrap();
        let fault = global_scale(&tensors, "s").unwrap_err();
        assert!(matches!(fault, ScaleFault::Unusable(bits) if bits == value.to_bits()));
    }
    let file = tensors_file(&[("s", "F32", &[2], &[0; 8])]);
    let tensors = open_tensors(&file).unwrap();
    let fault = global_scale(&tensors, "s").unwrap_err();
    assert!(matches!(fault, ScaleFault::Unread(text) if text == "s is F32, not a scalar f32 tensor"));
}

#[test]
fn files_without_a_header_are_refused() {
    assert!(open_tensors(b"short").is_err());
}

/// A weights file of a header and bytes.
fn file_of(header: &str, data: &[u8]) -> Vec<u8> {
    let mut file = (header.len() as u64).to_le_bytes().to_vec();
    file.extend_from_slice(header.as_bytes());
    file.extend_from_slice(data);
    file
}

#[test]
fn tensors_beyond_every_file_are_refused() {
    let header = r#"{"t":{"dtype":"U8","shape":[18446744073709551615],"data_offsets":[0,18446744073709551615]}}"#;
    assert_eq!(open_tensors(&file_of(header, &[])).err().unwrap(), "MetadataIncompleteBuffer");
    let header = r#"{"t":{"dtype":"U8","shape":[18446744073709551500],"data_offsets":[0,18446744073709551500]}}"#;
    assert_eq!(open_tensors(&file_of(header, &[])).err().unwrap(), "MetadataIncompleteBuffer");
    let header = r#"{"t":{"dtype":"U8","shape":[18446744073709550000],"data_offsets":[0,18446744073709550000]}}"#;
    assert_eq!(open_tensors(&file_of(header, &[])).err().unwrap(), "MetadataIncompleteBuffer");
    let header = r#"{"t":{"dtype":"U8","shape":[2],"data_offsets":[0,18446744073709551616]}}"#;
    assert_eq!(open_tensors(&file_of(header, &[])).err().unwrap(), "InvalidHeaderDeserialization");
}

#[test]
fn great_numbers_elsewhere_are_taken() {
    for name in ["18446744073709551615", r#"a\"18446744073709551615"#, r#"\\"#] {
        let header = format!(r#"{{"{name}":{{"dtype":"U8","shape":[1],"data_offsets":[0,1]}}}}"#);
        assert_eq!(open_tensors(&file_of(&header, &[7])).unwrap().len(), 1);
    }
    let header = r#"{"t":{"dtype":"U8","shape":[0,99999999999999],"data_offsets":[0,0],"x":99999999999999999999}}"#;
    assert_eq!(open_tensors(&file_of(header, &[])).unwrap().len(), 1);
}

#[test]
fn layer_plans_name_their_tensors() {
    let sliding = layer_plan(4);
    assert_eq!(sliding.len(), 24);
    assert_eq!(sliding[0].name, "model.language_model.layers.4.pre_feedforward_layernorm.weight");
    assert_eq!(sliding[3].name, "model.language_model.layers.4.mlp.up_proj.weight_packed");
    assert_eq!(sliding[3].reading, Reading::Packed(15360, 3840));
    assert_eq!(sliding[11].name, "model.language_model.layers.4.mlp.down_proj.weight_global_scale");
    assert_eq!(sliding[11].reading, Reading::Scale);
    assert!(sliding.iter().any(|part| part.name.ends_with("v_proj.weight")));
    assert_eq!(sliding[23].name, "model.language_model.layers.4.layer_scalar");
    assert_eq!(sliding[23].reading, Reading::Scalar);
    let full = layer_plan(5);
    assert_eq!(full.len(), 22);
    assert!(!full.iter().any(|part| part.name.contains("v_proj")));
    assert_eq!(full[14].name, "model.language_model.layers.5.self_attn.q_proj.weight_scale");
    assert_eq!(full[14].reading, Reading::Column(8192));
    for a in &sliding {
        assert!(full.iter().all(|b| a.name != b.name));
    }
    assert_eq!(outer_plan().len(), 13);
    assert_eq!(outer_plan()[2], "model.vision_embedder.pos_embedding");
}
