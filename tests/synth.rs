use synfone::synth::{
    all_factories, fold_rates, sample_bound, FactoryKind, FactoryParameters, GenFactoryError,
    GenFactoryErrorType, ParamKind, ParamValue, Phase, Rate, RelOp,
};
use std::cmp::Ordering;

#[test]
fn rate_promotion() {
    assert_eq!(fold_rates(&vec![Rate::Control, Rate::Control]), Rate::Control);
    assert_eq!(fold_rates(&vec![Rate::Control, Rate::Sample, Rate::Control]), Rate::Sample);
    assert_eq!(fold_rates(&vec![]), Rate::Sample);
    assert_eq!(Rate::Control.combine(Rate::Sample), Rate::Sample);
    assert_eq!(Rate::Control.combine(Rate::Control), Rate::Control);
}

#[test]
fn per_sample_bound() {
    let inputs = vec![(Rate::Sample, 48), (Rate::Control, 1), (Rate::Sample, 60)];
    assert_eq!(sample_bound(64, &inputs), 48);
    assert_eq!(sample_bound(32, &inputs), 32);
    assert_eq!(sample_bound(64, &vec![(Rate::Control, 1)]), 64);
}

#[test]
fn factory_registry() {
    assert_eq!(FactoryKind::from_name("sine"), Some(FactoryKind::Sine));
    assert_eq!(FactoryKind::from_name("dahdsr"), Some(FactoryKind::Dahdsr));
    assert_eq!(FactoryKind::from_name("Sine"), None);
    let all = all_factories();
    assert_eq!(all.len(), 17);
    for k in all {
        assert_eq!(FactoryKind::from_name(k.name()), Some(k));
    }
}

#[test]
fn rel_operators() {
    assert_eq!(RelOp::from_text(">="), RelOp::GreaterEqual);
    assert_eq!(RelOp::from_text("<"), RelOp::Less);
    assert_eq!(RelOp::from_text("?"), RelOp::Equal);
    assert_eq!(RelOp::from_text(RelOp::NotEqual.to_param_string()), RelOp::NotEqual);
    assert!(RelOp::GreaterEqual.holds(Some(Ordering::Equal)));
    assert!(!RelOp::Less.holds(Some(Ordering::Equal)));
    assert!(!RelOp::Equal.holds(None));
    assert!(!RelOp::NotEqual.holds(None));
}

#[test]
fn envelope_phases() {
    assert_eq!(Phase::Release.gate(true), (Phase::Delay, true));
    assert_eq!(Phase::Sustain.gate(true), (Phase::Sustain, false));
    assert_eq!(Phase::Attack.gate(false), (Phase::Release, false));
    assert_eq!(Phase::Delay.step(true), Phase::Attack);
    assert_eq!(Phase::Attack.step(false), Phase::Attack);
    assert_eq!(Phase::Decay.step(true), Phase::Sustain);
    assert_eq!(Phase::Sustain.step(true), Phase::Sustain);
    assert_eq!(Phase::Release.step(true), Phase::Release);
}

#[test]
fn argument_lookup() {
    let mut p = FactoryParameters::new();
    p.push_positional(ParamValue::Integer(1));
    p.push_positional(ParamValue::String("x".to_string()));
    p.insert_named("freq".to_string(), ParamValue::Integer(5));
    p.insert_named("freq".to_string(), ParamValue::Integer(6));
    assert_eq!(p.names.len(), 1);
    assert!(matches!(p.get_param("freq", 0), Some(ParamValue::Integer(6))));
    assert!(matches!(p.get_param("phase", 1), Some(ParamValue::String(_))));
    assert!(p.get_param("phase", 2).is_none());
    match p.get_req_param("gen", 4) {
        Err(GenFactoryError::MissingRequiredParam(n, 4)) => assert_eq!(n, "gen"),
        other => panic!("{:?}", other),
    }
    assert!(matches!(p.remove_param("value", 0), Ok(ParamValue::Integer(1))));
    assert!(p.remove_param("value", 0).is_err());
    assert!(matches!(p.get_param("z", 1), Some(ParamValue::String(_))));
    assert!(matches!(p.remove_param("freq", 1), Ok(ParamValue::Integer(6))));
    assert!(p.get_param("freq", 7).is_none());
}

#[test]
fn positional_run() {
    let mut p = FactoryParameters::new();
    p.push_positional(ParamValue::Integer(1));
    p.push_positional(ParamValue::Integer(2));
    p.push_positional(ParamValue::Integer(3));
    let _ = p.remove_param("x", 2);
    let got = p.get_pos_params();
    assert_eq!(got.len(), 2);
    assert_eq!(got[0].kind(), ParamKind::Integer);
    assert!(p.get_param("x", 0).is_none());
}

#[test]
fn factory_error_descriptions() {
    let e = GenFactoryErrorType::new(GenFactoryError::MissingRequiredParam("freq".to_string(), 3));
    assert_eq!(e.description(), "Needed a parameter named freq or at pos 3");
    let e = GenFactoryErrorType::new(GenFactoryError::CannotConvert(ParamKind::String, ParamKind::Generator));
    assert_eq!(e.description(), "Cannot convert String to Generator");
    let e = GenFactoryErrorType::new(GenFactoryError::BadType(ParamKind::Float));
    assert_eq!(e.description(), "Bad parameter type Float");
    let e = GenFactoryErrorType::with_description(GenFactoryError::BadType(ParamKind::Integer), "custom".to_string());
    assert_eq!(e.description(), "custom");
}

#[test]
fn removal_takes_the_argument_out() {
    let mut p = FactoryParameters::new();
    p.push_positional(ParamValue::Integer(1));
    p.insert_named("a".to_string(), ParamValue::Integer(2));
    p.insert_named("b".to_string(), ParamValue::Integer(3));
    assert!(matches!(p.remove_param("a", 0), Ok(ParamValue::Integer(2))));
    assert_eq!(p.names, vec!["b".to_string()]);
    assert!(matches!(p.get_param("b", 5), Some(ParamValue::Integer(3))));
    assert!(p.remove_param("zz", 4).is_err());
    assert_eq!(p.names.len(), 1);
    assert_eq!(p.positional.len(), 1);
    assert!(matches!(p.remove_param("zz", 0), Ok(ParamValue::Integer(1))));
    assert!(p.positional[0].is_none());
}
