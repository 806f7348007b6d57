use product::station::{
    antenna_indices, antenna_plan, ant_fixture_cmd, eight_calc_maxi, eight_get_data_rst,
    eight_get_txt_src_data, eight_normalize, flow_start, flow_step, flow_work, get_eslid_only,
    hex_key, mac2hex, parse_key, sensor_fixture_cmd, sensor_grab_cmd, sensor_release_cmd,
    FlowState, FlowWork,
};
use product::stats::{calc_avg_index0, calculate_mean, eight_calc_pack, eight_calculate_variance};
use product::StationError;

#[test]
fn antenna_schedule_is_sixteen_ascending_positions() {
    let idx = antenna_indices();
    assert_eq!(idx, vec![1, 2, 3, 5, 6, 7, 8, 9, 10, 11, 13, 14, 15, 16, 17, 18]);
    assert_eq!(idx.len(), 16);
    for w in idx.windows(2) {
        assert!(w[0] < w[1]);
    }
    assert!(!idx.contains(&4) && !idx.contains(&12));
}

#[test]
fn antenna_plan_issues_sixteen_exchanges_in_order() {
    let plan = antenna_plan(38);
    assert_eq!(plan.len(), 16);
    let idx = antenna_indices();
    for (k, (ant, cmd, frame)) in plan.iter().enumerate() {
        assert_eq!(*ant, idx[k]);
        assert_eq!(*cmd, format!("4001,{},38,10000\n", idx[k]));
        assert_eq!(frame.len(), 12);
        assert_eq!(frame[7], idx[k]);
    }
}

#[test]
fn fixture_command_lines() {
    assert_eq!(ant_fixture_cmd(5, 38), "4001,5,38,10000\n");
    assert_eq!(sensor_fixture_cmd(0), "3001,senx\n");
    assert_eq!(sensor_fixture_cmd(1), "3001,seny\n");
    assert_eq!(sensor_fixture_cmd(2), "3001,senz\n");
    assert_eq!(sensor_grab_cmd(), "3001,grab\n");
    assert_eq!(sensor_release_cmd(), "3001,release\n");
}

#[test]
fn wraparound_mean_for_the_first_tag_only() {
    let samples: Vec<i64> = vec![10_000, 350_000];
    let folded = calc_avg_index0(&samples);
    assert_eq!(folded, 0);
    assert_eq!(folded as f64 / 100.0, 0.0);
    let plain = calculate_mean(&samples);
    assert_eq!(plain, 18_000);
    assert_eq!(plain as f64 / 100.0, 180.0);
}

#[test]
fn mean_rounds_half_away_from_zero() {
    assert_eq!(calculate_mean(&vec![10, 20]), 2);
    assert_eq!(calculate_mean(&vec![-10, -20]), -2);
    assert_eq!(calculate_mean(&vec![10_000]), 1_000);
}

#[test]
fn variance_of_one_sample_is_undefined() {
    assert_eq!(eight_calculate_variance(&vec![1_000]), None);
    assert_eq!(eight_calculate_variance(&vec![]), None);
}

#[test]
fn variance_of_three_known_samples_is_one() {
    let (num, den) = eight_calculate_variance(&vec![1_000, 2_000, 3_000]).unwrap();
    assert_eq!((num, den), (18_000_000, 18));
    assert_eq!(num, den * 1_000_000);
    assert_eq!(num as f64 / den as f64 / 1_000_000.0, 1.0);
}

#[test]
fn packet_count_is_the_sample_count() {
    assert_eq!(eight_calc_pack(&vec![(1, 2), (3, 4)]), 2);
}

#[test]
fn per_tag_statistics_text() {
    let s = eight_calc_maxi(1, &vec![(10_000, 20_000)]);
    assert_eq!(
        s,
        "azi_max=10,aze_min=10,aze_avg=10,aze_variance=0,ele_max=20,ele_min=20,ele_avg=20,ele_variance=0"
    );
    let s = eight_calc_maxi(0, &vec![(10_000, 20_000), (350_000, 20_500)]);
    assert_eq!(
        s,
        "azi_max=350,aze_min=10,aze_avg=0,aze_variance=57800,ele_max=20.5,ele_min=20,ele_avg=20.25,ele_variance=0.13"
    );
    let s = eight_calc_maxi(1, &vec![(10_000, 20_000), (350_000, 20_500)]);
    assert_eq!(
        s,
        "azi_max=350,aze_min=10,aze_avg=180,aze_variance=57800,ele_max=20.5,ele_min=20,ele_avg=20.25,ele_variance=0.13"
    );
    let s = eight_calc_maxi(3, &vec![]);
    assert_eq!(
        s,
        "azi_max=-inf,aze_min=inf,aze_avg=NaN,aze_variance=0,ele_max=-inf,ele_min=inf,ele_avg=NaN,ele_variance=0"
    );
}

#[test]
fn per_tag_statistics_fraction_digits() {
    let s = eight_calc_maxi(2, &vec![(12_345, 7)]);
    assert_eq!(
        s,
        "azi_max=12.345,aze_min=12.345,aze_avg=12.35,aze_variance=0,ele_max=0.007,ele_min=0.007,ele_avg=0.01,ele_variance=0"
    );
}

#[test]
fn tag_key_parsing() {
    assert_eq!(parse_key("[1, 2, 3, 4]"), Ok(vec![1, 2, 3, 4]));
    assert_eq!(parse_key("[255,0]"), Ok(vec![255, 0]));
    assert_eq!(parse_key("[1, x]"), Err(StationError::Decode));
    assert_eq!(parse_key("[1, 256]"), Err(StationError::Decode));
}

#[test]
fn hex_key_and_mac_formatting() {
    assert_eq!(hex_key(&vec![1, 2, 3, 4]), "01-02-03-04");
    assert_eq!(hex_key(&vec![0xAB, 0xCD]), "ab-cd");
    assert_eq!(mac2hex(&vec![0xAA, 0xBB, 0xCC, 0x00, 0x01, 0x02]), "aa:bb:cc:00:01:02");
}

#[test]
fn normalize_rewrites_keys_and_keeps_the_last_duplicate() {
    let src = vec![
        ("[1, 2]".to_string(), vec![(1u32, 2u32)]),
        ("[01, 2]".to_string(), vec![(7, 8)]),
        ("[3, 4]".to_string(), vec![(5, 6)]),
    ];
    let m = eight_normalize(&src).unwrap();
    assert_eq!(m.len(), 2);
    assert_eq!(m[0].0, "01-02");
    assert_eq!(m[0].1, vec![(7, 8)]);
    assert_eq!(m[1].0, "03-04");
}

#[test]
fn restriction_keeps_only_reference_tags() {
    let src = vec![
        ("01-02".to_string(), vec![(1u32, 2u32)]),
        ("03-04".to_string(), vec![(3, 4)]),
    ];
    let kept = eight_get_txt_src_data(&src, &vec!["03-04".to_string()]);
    assert_eq!(kept.len(), 1);
    assert_eq!(kept[0].0, "03-04");
}

#[test]
fn eight_report_text() {
    let s = vec![("[1, 2, 3, 4]".to_string(), vec![(10_000u32, 20_000u32)])];
    let reference = vec![("01-02-03-04".to_string(), "40.0".to_string())];
    let out = eight_get_data_rst(&s, &reference).unwrap();
    assert_eq!(
        out,
        "esl=01-02-03-04,exp_azi=40.0,data=\"azi_max=10,aze_min=10,aze_avg=10,aze_variance=0,ele_max=20,ele_min=20,ele_avg=20,ele_variance=0\",packnum=1"
    );
}

#[test]
fn eight_report_bad_key_is_a_decode_error() {
    let s = vec![("nonsense".to_string(), vec![(1u32, 2u32)])];
    assert_eq!(eight_get_data_rst(&s, &vec![]), Err(StationError::Decode));
}

#[test]
fn allowlist_extraction_parses_hex_ids() {
    let contents = "{\"AA-BB-CC-DD\": [[1, 2]], \"zz\": [], \"11223344\": [[3, 4]]}";
    let mut ids = get_eslid_only(contents).unwrap();
    ids.sort();
    assert_eq!(ids, vec![0x11223344, 0xAABBCCDD]);
    assert!(get_eslid_only("not json").is_err());
}

#[test]
fn flow_walks_the_phases_in_order() {
    let mut s = flow_start();
    assert_eq!(s, FlowState::AntPhase { pos: 0 });
    for k in 0..16usize {
        assert_eq!(flow_work(s), FlowWork::RunAnt { pos: k });
        s = flow_step(s, true);
    }
    assert_eq!(s, FlowState::SensorGrab);
    s = flow_step(s, true);
    assert_eq!(flow_work(s), FlowWork::Sleep { secs: 3 });
    s = flow_step(s, true);
    assert_eq!(flow_work(s), FlowWork::RunSensor { axis: 0 });
    s = flow_step(s, false);
    assert_eq!(flow_work(s), FlowWork::RunSensor { axis: 1 }, "an axis failure is tolerated");
    s = flow_step(s, true);
    assert_eq!(flow_work(s), FlowWork::RunSensor { axis: 2 });
    s = flow_step(s, false);
    assert_eq!(flow_work(s), FlowWork::Sleep { secs: 5 });
    s = flow_step(s, true);
    assert_eq!(flow_work(s), FlowWork::Release);
    s = flow_step(s, true);
    assert_eq!(flow_work(s), FlowWork::RunEight);
    s = flow_step(s, true);
    assert_eq!(flow_work(s), FlowWork::EmitReport);
    s = flow_step(s, true);
    assert_eq!(s, FlowState::Done);
}

#[test]
fn flow_abandons_the_run_on_an_antenna_failure() {
    let s = flow_step(flow_start(), false);
    assert_eq!(s, FlowState::Failed);
    assert_eq!(flow_work(s), FlowWork::Idle);
    assert_eq!(flow_step(s, true), FlowState::Failed);
}
