use lms_server::inference::{
    accelerator_from_probes, choose_llama_server, common_llama_server_paths, health_step, llama_server_args,
    plan_model_start, sse_data_payloads, AcceleratorType, HealthAction, HealthOutcome, ProcessTable, StartPlan,
    HEALTH_ATTEMPTS,
};

#[test]
fn accelerator_preference_order() {
    assert_eq!(accelerator_from_probes(true, true, true, true), AcceleratorType::CUDA);
    assert_eq!(accelerator_from_probes(false, true, true, true), AcceleratorType::ROCm);
    assert_eq!(accelerator_from_probes(false, false, true, true), AcceleratorType::Metal);
    assert_eq!(accelerator_from_probes(false, false, false, true), AcceleratorType::Vulkan);
    assert_eq!(accelerator_from_probes(false, false, false, false), AcceleratorType::CPU);
}

#[test]
fn server_binary_choice() {
    assert_eq!(choose_llama_server(Some(b"/opt/bin/llama-server\n"), Some("/usr/bin/llama-server"), AcceleratorType::CPU), "/opt/bin/llama-server");
    assert_eq!(choose_llama_server(Some(b"  \n"), Some("/usr/bin/llama-server"), AcceleratorType::CPU), "/usr/bin/llama-server");
    assert_eq!(choose_llama_server(None, None, AcceleratorType::CUDA), "./llama-server-cuda");
    assert_eq!(choose_llama_server(None, None, AcceleratorType::ROCm), "./llama-server-rocm");
    assert_eq!(common_llama_server_paths().len(), 5);
    assert_eq!(common_llama_server_paths()[4], "~/.local/bin/llama-server");
}

#[test]
fn server_arguments() {
    let a = llama_server_args("/m.gguf", 8081, 4096, 32, 4, AcceleratorType::CUDA);
    assert_eq!(a, vec!["--model", "/m.gguf", "--port", "8081", "--ctx-size", "4096", "--threads", "4", "--n-gpu-layers", "32"]);
    let c = llama_server_args("/m.gguf", 8080, 2048, 32, 8, AcceleratorType::CPU);
    assert_eq!(c, vec!["--model", "/m.gguf", "--port", "8080", "--ctx-size", "2048", "--threads", "8"]);
    let z = llama_server_args("/m.gguf", 8080, 2048, 0, 8, AcceleratorType::Metal);
    assert_eq!(z.len(), 8);
}

#[test]
fn readiness_polling() {
    assert_eq!(health_step(1, HealthOutcome::Ready), HealthAction::Proceed);
    assert_eq!(health_step(1, HealthOutcome::Unreachable), HealthAction::Retry);
    assert_eq!(health_step(HEALTH_ATTEMPTS, HealthOutcome::Unreachable), HealthAction::GiveUp);
    assert_eq!(health_step(5, HealthOutcome::NotReady), HealthAction::Retry);
    assert_eq!(health_step(HEALTH_ATTEMPTS, HealthOutcome::NotReady), HealthAction::Proceed);
}

#[test]
fn process_table_register_lookup_remove() {
    let mut t = ProcessTable::new();
    assert_eq!(t.port_of("m"), Err("Model m not loaded".to_string()));
    t.register("m", 8080);
    t.register("n", 8081);
    assert_eq!(t.len(), 2);
    assert!(t.contains("m"));
    assert_eq!(t.port_of("m"), Ok(8080));
    t.register("m", 9000);
    assert_eq!(t.len(), 2);
    assert_eq!(t.port_of("m"), Ok(9000));
    assert_eq!(t.remove("m"), Ok(9000));
    assert!(!t.contains("m"));
    assert_eq!(t.port_of("n"), Ok(8081));
    assert_eq!(t.remove("m"), Err("Model m not found".to_string()));
}

#[test]
fn model_start_plans() {
    let mut t = ProcessTable::new();
    t.register("loaded", 8080);
    assert!(matches!(plan_model_start(&t, "loaded", "/x", false, 8080, 1, 1, 1, AcceleratorType::CPU), Ok(StartPlan::AlreadyLoaded)));
    match plan_model_start(&t, "new", "/x.gguf", false, 8080, 1, 1, 1, AcceleratorType::CPU) {
        Err(m) => assert_eq!(m, "Model file not found: /x.gguf"),
        _ => panic!("missing file must be reported"),
    }
    match plan_model_start(&t, "new", "/x.gguf", true, 8080, 512, 0, 2, AcceleratorType::CPU) {
        Ok(StartPlan::Start { port, args }) => {
            assert_eq!(port, 8081);
            assert_eq!(args, vec!["--model", "/x.gguf", "--port", "8081", "--ctx-size", "512", "--threads", "2"]);
        }
        _ => panic!("expected a start"),
    }
}

#[test]
fn stream_payloads() {
    let text = "data: {\"content\":\"Hi\"}\r\n\ndata: {\"content\":\"!\"}\nevent: x\ndata:nospace\n";
    assert_eq!(sse_data_payloads(text), vec!["{\"content\":\"Hi\"}", "{\"content\":\"!\"}"]);
    assert_eq!(sse_data_payloads("data: last\r"), vec!["last\r"]);
    assert!(sse_data_payloads("").is_empty());
}

#[test]
fn new_server_never_takes_a_port_in_use() {
    let mut t = ProcessTable::new();
    t.register("a", 8080);
    t.register("b", 8081);
    assert_eq!(t.remove("a"), Ok(8080));
    match plan_model_start(&t, "c", "/c.gguf", true, 8080, 512, 0, 2, AcceleratorType::CPU) {
        Ok(StartPlan::Start { port, .. }) => assert_eq!(port, 8082),
        _ => panic!("expected a start"),
    }
    assert_eq!(ProcessTable::new().free_port(8080), Some(8080));
    let mut full = ProcessTable::new();
    full.register("z", 65535);
    assert_eq!(full.free_port(8080), None);
}
