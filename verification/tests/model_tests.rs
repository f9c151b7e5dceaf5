use am_python::error::{AmErr, ExceptionClass};
use am_python::model::{
    decimal_string, failure_text, parser_argv, requested_mask, ModelStatus, Output, OUTPUT_TABLE_LEN,
    OUTPUT_USER,
};

fn flags_for(requested: &[usize]) -> Vec<i32> {
    let mut flags = vec![0x4; OUTPUT_TABLE_LEN];
    for &i in requested {
        flags[i] |= OUTPUT_USER;
    }
    flags
}

#[test]
fn requested_mask_sets_flagged_entries() {
    assert_eq!(requested_mask(&flags_for(&[])), 0);
    assert_eq!(requested_mask(&flags_for(&[0, 2, 13])), 0b10_0000_0000_0101);
    assert_eq!(requested_mask(&vec![-1; OUTPUT_TABLE_LEN]), 0x3FFF);
    assert_eq!(requested_mask(&vec![2; OUTPUT_TABLE_LEN]), 0);
}

#[test]
fn decimal_string_agrees_with_to_string() {
    for n in [0, 7, 9, 10, 42, -1, -10, 701, 1000000, i32::MAX, i32::MIN, -2147483647] {
        assert_eq!(decimal_string(n), n.to_string());
    }
    for n in -2000..2000 {
        assert_eq!(decimal_string(n), n.to_string());
    }
}

#[test]
fn failure_text_prefers_what_was_printed() {
    assert_eq!(
        failure_text("parse_config_file", 2, "  x.amc(3): cannot open file\n"),
        "x.amc(3): cannot open file"
    );
    assert_eq!(
        failure_text("parse_config_file", 3, ""),
        "parse_config_file returned error code 3"
    );
    assert_eq!(failure_text("compute_model", -5, ""), "compute_model returned error code -5");
    assert_eq!(failure_text("compute_model", 1, " \n "), "");
}

#[test]
fn after_parse_failure_is_a_config_error() {
    let flags = flags_for(&[1]);
    match ModelStatus::after_parse(1, "", &flags) {
        Err(AmErr::Config(m)) => assert_eq!(m, "parse_config_file returned error code 1"),
        other => panic!("unexpected {:?}", other),
    }
    match ModelStatus::after_parse(4, "%1 has no matching argument\nUsage: am ...\n", &flags) {
        Err(AmErr::Config(m)) => assert_eq!(m, "%1 has no matching argument\nUsage: am ..."),
        other => panic!("unexpected {:?}", other),
    }
}

#[test]
fn outputs_follow_request_and_compute() {
    let flags = flags_for(&[0, Output::Transmittance.index() as usize, Output::TbRayleighJeans.index() as usize]);
    let mut st = ModelStatus::after_parse(0, "", &flags).unwrap();
    assert!(!st.computed);
    for o in Output::all() {
        assert!(!st.offers(o, true), "{:?} offered before compute", o);
    }
    match st.after_compute(7, "") {
        Err(AmErr::Compute(m)) => assert_eq!(m, "compute_model returned error code 7"),
        other => panic!("unexpected {:?}", other),
    }
    assert!(!st.computed);
    st.after_compute(0, "").unwrap();
    assert!(st.computed);
    let offered: Vec<&str> = Output::all()
        .into_iter()
        .filter(|o| st.offers(*o, true))
        .map(|o| o.name())
        .collect();
    assert_eq!(offered, vec!["transmittance", "tb_rj"]);
    assert!(!st.offers(Output::Transmittance, false));
    // a failure after a success keeps the model computed
    assert!(st.after_compute(2, " engine stopped ").is_err());
    assert!(st.computed);
    match st.after_compute(2, " engine stopped ") {
        Err(AmErr::Compute(m)) => assert_eq!(m, "engine stopped"),
        other => panic!("unexpected {:?}", other),
    }
}

#[test]
fn outputs_have_distinct_indices_and_names() {
    let all = Output::all();
    assert_eq!(all.len(), 11);
    let names: Vec<&str> = all.iter().map(|o| o.name()).collect();
    assert_eq!(
        names,
        vec![
            "opacity",
            "transmittance",
            "radiance",
            "radiance_diff",
            "tb_planck",
            "tb_rj",
            "tsys",
            "y_factor",
            "delay",
            "free_space_loss",
            "absorption_coeff"
        ]
    );
    let idx: Vec<u32> = all.iter().map(|o| o.index()).collect();
    assert_eq!(idx, (1..=11).collect::<Vec<u32>>());
}

#[test]
fn parser_argv_puts_program_and_path_first() {
    let args: Vec<String> = ["0", "GHz", "350", "GHz", "0.5", "GHz", "35", "deg", "1.0"]
        .iter()
        .map(|s| s.to_string())
        .collect();
    let v = parser_argv(Some("SPole_JJA_75.amc"), &args).unwrap();
    assert_eq!(v.len(), 11);
    assert_eq!(v[0], "am");
    assert_eq!(v[1], "SPole_JJA_75.amc");
    assert_eq!(&v[2..], &args[..]);
    assert_eq!(parser_argv(Some("x.amc"), &[]).unwrap(), vec!["am".to_string(), "x.amc".to_string()]);
    match parser_argv(None, &args) {
        Err(AmErr::Config(m)) => assert_eq!(m, "Path contains invalid UTF-8"),
        other => panic!("unexpected {:?}", other),
    }
}

#[test]
fn error_messages_and_exceptions() {
    let io = AmErr::Io("disk gone".to_string());
    assert_eq!(io.to_string(), "I/O error: disk gone");
    assert_eq!(io.to_exception(), (ExceptionClass::ConfigError, "disk gone".to_string()));
    let cfg = AmErr::Config("bad config".to_string());
    assert_eq!(cfg.to_string(), "bad config");
    assert_eq!(cfg.to_exception(), (ExceptionClass::ConfigError, "bad config".to_string()));
    let comp = AmErr::Compute("diverged".to_string());
    assert_eq!(comp.to_string(), "diverged");
    assert_eq!(comp.to_exception(), (ExceptionClass::ComputeError, "diverged".to_string()));
}

#[test]
fn offered_lists_requested_outputs_with_data() {
    let flags = flags_for(&[Output::Opacity.index() as usize, Output::Delay.index() as usize, Output::Tsys.index() as usize]);
    let mut st = ModelStatus::after_parse(0, "", &flags).unwrap();
    let all_data = vec![true; 11];
    assert!(st.offered(&all_data).is_empty());
    st.after_compute(0, "").unwrap();
    assert_eq!(st.offered(&all_data), vec![Output::Opacity, Output::Tsys, Output::Delay]);
    let mut some_data = all_data.clone();
    some_data[6] = false; // no Tsys data
    assert_eq!(st.offered(&some_data), vec![Output::Opacity, Output::Delay]);
}
