use sag::inference::{FakeEndpoint, GenerateRequest, InferenceError};
use sag::node::{
    classify_gpu, describe, detect, discovery_needed, echo_models, hello_entry, hello_prompt, hello_reply,
    recommend_engine, registration_request, rejection_message, served_models, EnvProbe, FakeNode, GpuVendor,
};
use sag::proto::{NodeSnapshot, RegisterResponse, PROTOCOL_VERSION};

#[test]
fn fake_node_reports_its_fixed_snapshot() {
    let node = FakeNode::new(NodeSnapshot {
        id: "gmkmini".into(),
        vram_gb: 108,
        queue_depth: 0,
        warm_models: vec!["qwen3-coder:30b".into()],
    });
    let snap = node.snapshot().unwrap();
    assert_eq!(snap.id, "gmkmini");
    assert_eq!(snap.vram_gb, 108);
}

#[test]
fn describe_builds_the_advertised_descriptor() {
    let d = describe(
        "gmkmini",
        "http://gmkmini:8080",
        &["qwen3-coder:30b".to_string(), "gpt-oss:20b".to_string()],
    );
    assert_eq!(d.node_id, "gmkmini");
    assert_eq!(d.addr, "http://gmkmini:8080");
    assert_eq!(d.models.iter().map(|m| m.id.as_str()).collect::<Vec<_>>(), ["qwen3-coder:30b", "gpt-oss:20b"]);
    assert_eq!(d.capabilities, ["serve"]);
}

struct FakeProbe {
    commands: &'static [&'static str],
    paths: &'static [&'static str],
}

impl EnvProbe for FakeProbe {
    fn has_command(&self, name: &str) -> bool {
        self.commands.contains(&name)
    }
    fn has_path(&self, path: &str) -> bool {
        self.paths.contains(&path)
    }
}

fn probe(commands: &'static [&'static str], paths: &'static [&'static str]) -> FakeProbe {
    FakeProbe { commands, paths }
}

#[test]
fn nvidia_on_linux_picks_vllm() {
    let d = detect("linux", &probe(&["nvidia-smi"], &[]));
    assert_eq!(d.gpu, GpuVendor::Nvidia);
    assert!(d.engine.starts_with("vLLM"));
}

#[test]
fn amd_detected_by_rocm_path() {
    let d = detect("linux", &probe(&[], &["/opt/rocm"]));
    assert_eq!(d.gpu, GpuVendor::Amd);
    assert!(d.engine.contains("ROCm"));
}

#[test]
fn intel_detected_by_sycl() {
    let d = detect("linux", &probe(&["sycl-ls"], &[]));
    assert_eq!(d.gpu, GpuVendor::Intel);
}

#[test]
fn no_gpu_falls_back_to_cpu_llamacpp() {
    let d = detect("linux", &probe(&[], &[]));
    assert_eq!(d.gpu, GpuVendor::Cpu);
    assert!(d.engine.contains("CPU"));
}

#[test]
fn macos_prefers_ollama_regardless_of_gpu() {
    let d = detect("macos", &probe(&["nvidia-smi"], &[]));
    assert!(d.engine.contains("ollama"));
}

#[test]
fn vendor_precedence_and_engine_table() {
    assert_eq!(classify_gpu(true, true, true), GpuVendor::Nvidia);
    assert_eq!(classify_gpu(false, true, true), GpuVendor::Amd);
    assert_eq!(classify_gpu(false, false, true), GpuVendor::Intel);
    assert_eq!(recommend_engine("windows", GpuVendor::Nvidia), "ollama");
    assert_eq!(recommend_engine("linux", GpuVendor::Intel), "llama.cpp (Vulkan/SYCL)");
    assert_eq!(GpuVendor::Cpu.as_str(), "CPU-only");
    assert_eq!(GpuVendor::Amd.as_str(), "AMD");
    let d = detect("linux", &probe(&["rocm-smi", "xpu-smi"], &[]));
    assert_eq!(d.gpu, GpuVendor::Amd);
    assert_eq!(d.os, "linux");
}

#[test]
fn hello_runs_each_model_through_the_endpoint() {
    let models = ["qwen", "gptoss"];
    let message = hello_prompt(&Some("hi".into()));
    let resp = hello_reply(
        models
            .iter()
            .map(|m| {
                let result = FakeEndpoint.generate(GenerateRequest { model: m.to_string(), prompt: message.clone() });
                hello_entry("n1", m, result, 0)
            })
            .collect(),
    );
    assert_eq!(resp.protocol_version, PROTOCOL_VERSION);
    let replies = resp.replies;

    assert_eq!(replies.len(), 2);
    assert_eq!(replies[0].node_id, "n1");
    assert_eq!(replies[0].reply.as_deref(), Some("[qwen] hi"));
    assert!(replies[0].error.is_none());
    assert_eq!(replies[1].reply.as_deref(), Some("[gptoss] hi"));
}

#[test]
fn hello_defaults_and_failures() {
    assert_eq!(hello_prompt(&None), "hello world");
    let entry = hello_entry("n1", "m", Err(InferenceError::EmptyResponse), 12);
    assert_eq!(entry.reply, None);
    assert_eq!(entry.error.as_deref(), Some("model response contained no choices"));
    assert_eq!(entry.latency_ms, 12);
}

#[test]
fn registration_rejection_and_model_catalog() {
    let ok = RegisterResponse { protocol_version: PROTOCOL_VERSION, accepted: true, message: None };
    assert_eq!(rejection_message(&ok), None);
    let no = RegisterResponse { protocol_version: PROTOCOL_VERSION, accepted: false, message: Some("full".into()) };
    assert_eq!(rejection_message(&no).as_deref(), Some("full"));
    let bare = RegisterResponse { protocol_version: PROTOCOL_VERSION, accepted: false, message: None };
    assert_eq!(rejection_message(&bare).as_deref(), Some(""));

    assert_eq!(echo_models(&vec![]), ["fake-echo"]);
    assert_eq!(echo_models(&vec!["a".to_string()]), ["a"]);
    assert!(discovery_needed(&vec![]));
    assert_eq!(served_models(&vec!["x".to_string()], Some(vec!["y".to_string()])), ["x"]);
    assert_eq!(served_models(&vec![], Some(vec!["y".to_string()])), ["y"]);
    assert!(served_models(&vec![], None).is_empty());

    let req = registration_request(describe("n", "http://n:8080", &[]));
    assert_eq!(req.protocol_version, PROTOCOL_VERSION);
    assert_eq!(req.node.node_id, "n");
}
