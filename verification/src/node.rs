//! "What runs on a GPU box": the descriptor a node advertises, the offline
//! node, how a box is classified and which serving engine it gets, and the
//! replies a node gives to a `/hello` prompt.

use vstd::prelude::*;
use crate::inference::{inference_error_text, GenerateResponse, InferenceError};
use crate::proto::{
    copy_opt, model_views, opt_view, HelloResponse, ModelDescriptor, ModelDescriptorView, NodeDescriptor,
    NodeDescriptorView, NodeHello, NodeHelloView, NodeSnapshot, RegisterRequest, PROTOCOL_VERSION,
};
use crate::text::{str_eq, views};

verus! {

/// The descriptor a node with these models advertises.
pub open spec fn advertised(node_id: Seq<char>, addr: Seq<char>, model_ids: Seq<Seq<char>>) -> NodeDescriptorView {
    NodeDescriptorView {
        node_id,
        addr,
        models: model_ids.map_values(|id: Seq<char>| ModelDescriptorView { id, capabilities: Seq::empty() }),
        capabilities: seq!["serve"@],
    }
}

/// Build the descriptor this node advertises to a controller: its id, the
/// address peers reach it at, and the models it serves.
pub fn describe(node_id: &str, addr: &str, model_ids: &[String]) -> (r: NodeDescriptor)
    ensures
        r@ == advertised(node_id@, addr@, views(model_ids@)),
{
    let mut models: Vec<ModelDescriptor> = Vec::new();
    let mut i: usize = 0;
    while i < model_ids.len()
        invariant
            i <= model_ids@.len(),
            models.len() == i,
            forall|j: int|
                0 <= j < i ==> (#[trigger] models@[j])@ == (ModelDescriptorView {
                    id: model_ids@[j]@,
                    capabilities: Seq::empty(),
                }),
        decreases model_ids@.len() - i,
    {
        let m = ModelDescriptor { id: model_ids[i].clone(), capabilities: Vec::new() };
        assert(views(m.capabilities@) =~= Seq::<Seq<char>>::empty());
        models.push(m);
        i = i + 1;
    }
    let mut caps: Vec<String> = Vec::new();
    caps.push("serve".to_string());
    let r = NodeDescriptor { node_id: node_id.to_string(), addr: addr.to_string(), models, capabilities: caps };
    assert(views(caps@) =~= seq!["serve"@]);
    assert(model_views(r.models@) =~= views(model_ids@).map_values(
        |id: Seq<char>| ModelDescriptorView { id, capabilities: Seq::empty() },
    ));
    r
}

#[derive(Debug, PartialEq, Eq)]
pub enum NodeError {
    Unavailable,
}

impl NodeError {
    /// The error as a line of text.
    pub fn message(&self) -> (r: String)
        ensures
            r@ == "node unavailable"@,
    {
        "node unavailable".to_string()
    }
}

/// Offline node for tests: reports a fixed snapshot with no GPU probe.
pub struct FakeNode {
    snapshot: NodeSnapshot,
}

impl FakeNode {
    pub closed spec fn reported(&self) -> crate::proto::NodeSnapshotView {
        self.snapshot@
    }

    pub fn new(snapshot: NodeSnapshot) -> (r: Self)
        ensures
            r.reported() == snapshot@,
    {
        FakeNode { snapshot }
    }

    pub fn snapshot(&self) -> (r: Result<NodeSnapshot, NodeError>)
        ensures
            r matches Ok(s) && s@ == self.reported(),
    {
        Ok(self.snapshot.clone())
    }
}

// ── bootstrap: classify the box, pick a serving engine ──────────────────────

/// The GPU stack detected on this box (drives the serving-engine choice).
#[derive(Debug, Clone, Copy, PartialEq, Eq, Structural)]
pub enum GpuVendor {
    Nvidia,
    Amd,
    Intel,
    Cpu,
}

impl GpuVendor {
    pub fn as_str(self) -> (r: &'static str)
        ensures
            r@ == match self {
                GpuVendor::Nvidia => "NVIDIA"@,
                GpuVendor::Amd => "AMD"@,
                GpuVendor::Intel => "Intel"@,
                GpuVendor::Cpu => "CPU-only"@,
            },
    {
        match self {
            GpuVendor::Nvidia => "NVIDIA",
            GpuVendor::Amd => "AMD",
            GpuVendor::Intel => "Intel",
            GpuVendor::Cpu => "CPU-only",
        }
    }
}

/// What bootstrap concluded about this box.
#[derive(Debug, PartialEq, Eq)]
pub struct Detection {
    pub os: String,
    pub gpu: GpuVendor,
    /// Recommended serving engine.
    pub engine: &'static str,
}

/// Probing the environment (command and path presence), so detection can be
/// driven without real hardware. `command_present` and `path_present` stand
/// for what the probe answers about a name or a path. Implementations are
/// written outside this library (a real probe, a fake one in tests), so the
/// two spec functions have a default left unknown: what `has_command` and
/// `has_path` return is each implementation's promise, not proved here.
pub trait EnvProbe {
    /// Whether the probe finds the command `name`.
    closed spec fn command_present(&self, name: Seq<char>) -> bool {
        arbitrary()
    }

    /// Whether the probe finds the path `path`.
    closed spec fn path_present(&self, path: Seq<char>) -> bool {
        arbitrary()
    }

    fn has_command(&self, name: &str) -> (r: bool)
        ensures
            r == self.command_present(name@),
    ;

    fn has_path(&self, path: &str) -> (r: bool)
        ensures
            r == self.path_present(path@),
    ;
}

/// The vendor the evidence points to, in order of precedence: NVIDIA
/// (`nvidia-smi`), then AMD (`rocm-smi` or `/opt/rocm`), then Intel
/// (`xpu-smi` or `sycl-ls`), else CPU only.
pub open spec fn gpu_from(nvidia: bool, amd: bool, intel: bool) -> GpuVendor {
    if nvidia {
        GpuVendor::Nvidia
    } else if amd {
        GpuVendor::Amd
    } else if intel {
        GpuVendor::Intel
    } else {
        GpuVendor::Cpu
    }
}

pub fn classify_gpu(nvidia: bool, amd: bool, intel: bool) -> (r: GpuVendor)
    ensures
        r == gpu_from(nvidia, amd, intel),
{
    if nvidia {
        GpuVendor::Nvidia
    } else if amd {
        GpuVendor::Amd
    } else if intel {
        GpuVendor::Intel
    } else {
        GpuVendor::Cpu
    }
}

/// The serving engine for an OS and GPU: Ollama on macOS and Windows
/// whatever the GPU; elsewhere vLLM on NVIDIA and llama.cpp otherwise.
pub open spec fn engine_for(os: Seq<char>, gpu: GpuVendor) -> Seq<char> {
    if os == "macos"@ {
        "ollama (MLX opt-in later)"@
    } else if os == "windows"@ {
        "ollama"@
    } else {
        match gpu {
            GpuVendor::Nvidia => "vLLM (fallback: llama.cpp)"@,
            GpuVendor::Amd => "llama.cpp / ROCm"@,
            GpuVendor::Intel => "llama.cpp (Vulkan/SYCL)"@,
            GpuVendor::Cpu => "llama.cpp (CPU)"@,
        }
    }
}

/// On macOS and Windows the engine depends on the OS alone: Ollama whatever
/// GPU was detected. Elsewhere each vendor gets its own engine, and only
/// NVIDIA gets vLLM.
pub proof fn lemma_engine_by_os_then_vendor(os: Seq<char>, g1: GpuVendor, g2: GpuVendor)
    ensures
        engine_for("macos"@, g1) == "ollama (MLX opt-in later)"@,
        engine_for("windows"@, g1) == "ollama"@,
        os != "macos"@ && os != "windows"@ && g1 != g2 ==> engine_for(os, g1) != engine_for(os, g2),
        os != "macos"@ && os != "windows"@ ==> (engine_for(os, g1) == "vLLM (fallback: llama.cpp)"@
            <==> g1 == GpuVendor::Nvidia),
{
    reveal_strlit("macos");
    reveal_strlit("windows");
    reveal_strlit("vLLM (fallback: llama.cpp)");
    reveal_strlit("llama.cpp / ROCm");
    reveal_strlit("llama.cpp (Vulkan/SYCL)");
    reveal_strlit("llama.cpp (CPU)");
    assert("windows"@ != "macos"@) by {
        assert("windows"@.len() != "macos"@.len());
    }
    if os != "macos"@ && os != "windows"@ {
        assert("vLLM (fallback: llama.cpp)"@[0] != "llama.cpp / ROCm"@[0]);
        assert("vLLM (fallback: llama.cpp)"@[0] != "llama.cpp (Vulkan/SYCL)"@[0]);
        assert("vLLM (fallback: llama.cpp)"@[0] != "llama.cpp (CPU)"@[0]);
        assert("llama.cpp / ROCm"@[10] != "llama.cpp (Vulkan/SYCL)"@[10]);
        assert("llama.cpp / ROCm"@[10] != "llama.cpp (CPU)"@[10]);
        assert("llama.cpp (Vulkan/SYCL)"@[11] != "llama.cpp (CPU)"@[11]);
    }
}

pub fn recommend_engine(os: &str, gpu: GpuVendor) -> (r: &'static str)
    ensures
        r@ == engine_for(os@, gpu),
        os@ == "macos"@ ==> r@ == "ollama (MLX opt-in later)"@,
        os@ == "windows"@ ==> r@ == "ollama"@,
{
    proof {
        reveal_strlit("macos");
        reveal_strlit("windows");
        assert("windows"@ != "macos"@) by {
            assert("windows"@.len() != "macos"@.len());
        }
    }
    if str_eq(os, "macos") {
        "ollama (MLX opt-in later)"
    } else if str_eq(os, "windows") {
        "ollama"
    } else {
        match gpu {
            GpuVendor::Nvidia => "vLLM (fallback: llama.cpp)",
            GpuVendor::Amd => "llama.cpp / ROCm",
            GpuVendor::Intel => "llama.cpp (Vulkan/SYCL)",
            GpuVendor::Cpu => "llama.cpp (CPU)",
        }
    }
}

/// Detects the GPU vendor from tell-tale tools and paths, then maps the OS and
/// vendor to a serving engine. Probes are consulted in order of precedence and
/// only as far as needed.
pub fn detect<P: EnvProbe>(os: &str, probe: &P) -> (r: Detection)
    ensures
        r.os@ == os@,
        r.gpu == gpu_from(
            probe.command_present("nvidia-smi"@),
            probe.command_present("rocm-smi"@) || probe.path_present("/opt/rocm"@),
            probe.command_present("xpu-smi"@) || probe.command_present("sycl-ls"@),
        ),
        r.engine@ == engine_for(os@, r.gpu),
{
    let nvidia = probe.has_command("nvidia-smi");
    let amd = !nvidia && (probe.has_command("rocm-smi") || probe.has_path("/opt/rocm"));
    let intel = !nvidia && !amd && (probe.has_command("xpu-smi") || probe.has_command("sycl-ls"));
    let gpu = classify_gpu(nvidia, amd, intel);
    let engine = recommend_engine(os, gpu);
    Detection { os: os.to_string(), gpu, engine }
}

// ── replies to `/hello` ─────────────────────────────────────────────────────

/// The greeting a node sends its models when the request carries none.
pub open spec fn default_greeting() -> Seq<char> {
    "hello world"@
}

/// The prompt a `/hello` request asks for.
pub fn hello_prompt(message: &Option<String>) -> (r: String)
    ensures
        r@ == match message {
            Some(m) => m@,
            None => default_greeting(),
        },
{
    match message {
        Some(m) => m.clone(),
        None => "hello world".to_string(),
    }
}

/// One model's entry in a node's `/hello` reply: the generated text, or the
/// error it failed with.
pub fn hello_entry(
    node_id: &str,
    model: &str,
    result: Result<GenerateResponse, InferenceError>,
    latency_ms: u64,
) -> (r: NodeHello)
    ensures
        r@ == (NodeHelloView {
            node_id: node_id@,
            model: model@,
            reply: match result {
                Ok(resp) => Some(resp.text@),
                Err(_) => None,
            },
            error: match result {
                Ok(_) => None,
                Err(e) => Some(inference_error_text(e)),
            },
            latency_ms,
        }),
{
    let (reply, error) = match result {
        Ok(resp) => (Some(resp.text), None),
        Err(e) => (None, Some(e.message())),
    };
    NodeHello { node_id: node_id.to_string(), model: model.to_string(), reply, error, latency_ms }
}


/// A node's answer to `/hello`: one entry per model it serves, in order.
pub fn hello_reply(replies: Vec<NodeHello>) -> (r: HelloResponse)
    ensures
        r.protocol_version == PROTOCOL_VERSION,
        r.replies == replies,
{
    HelloResponse { protocol_version: PROTOCOL_VERSION, replies }
}


// ── registration and model catalog ──────────────────────────────────────────

/// The registration this node sends a controller: its descriptor, stamped
/// with this side's protocol version.
pub fn registration_request(node: NodeDescriptor) -> (r: RegisterRequest)
    ensures
        r.protocol_version == PROTOCOL_VERSION,
        r.node == node,
{
    RegisterRequest { protocol_version: PROTOCOL_VERSION, node }
}

/// A controller that answered a registration without accepting it: the message
/// to report (empty when it gave none); `None` when the node was accepted.
pub fn rejection_message(resp: &crate::proto::RegisterResponse) -> (r: Option<String>)
    ensures
        resp.accepted ==> r is None,
        !resp.accepted ==> (r matches Some(m) && m@ == match resp.message {
            Some(x) => x@,
            None => Seq::<char>::empty(),
        }),
{
    if resp.accepted {
        None
    } else {
        match &resp.message {
            Some(m) => Some(m.clone()),
            None => Some(String::new()),
        }
    }
}

/// The models an echo backend serves: the configured ones, or a single
/// `fake-echo` model when none is configured.
pub fn echo_models(configured: &Vec<String>) -> (r: Vec<String>)
    ensures
        views(r@) == (if configured.len() == 0 {
            seq!["fake-echo"@]
        } else {
            views(configured@)
        }),
{
    if configured.len() == 0 {
        let mut v: Vec<String> = Vec::new();
        v.push("fake-echo".to_string());
        assert(views(v@) =~= seq!["fake-echo"@]);
        v
    } else {
        crate::proto::copy_strings(configured)
    }
}

/// Whether a real backend's catalog has to be discovered from the server:
/// only when no model is configured.
pub fn discovery_needed(configured: &Vec<String>) -> (r: bool)
    ensures
        r == (configured.len() == 0),
{
    configured.len() == 0
}

/// The models a real backend serves: the configured ones; else those the
/// server advertised (`None` when discovery failed, which advertises none).
pub fn served_models(configured: &Vec<String>, discovered: Option<Vec<String>>) -> (r: Vec<String>)
    ensures
        configured.len() > 0 ==> views(r@) == views(configured@),
        configured.len() == 0 ==> views(r@) == match discovered {
            Some(d) => views(d@),
            None => Seq::<Seq<char>>::empty(),
        },
{
    if configured.len() > 0 {
        return crate::proto::copy_strings(configured);
    }
    match discovered {
        Some(d) => d,
        None => {
            let v: Vec<String> = Vec::new();
            assert(views(v@) =~= Seq::<Seq<char>>::empty());
            v
        },
    }
}

} // verus!
