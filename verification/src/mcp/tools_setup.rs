//! The agent-facing installer text. kern never writes into a host's config
//! itself — the host layout is the agent's domain — so `setup` returns
//! instructions and the current gaps, and the calling agent does the wiring.
use vstd::prelude::*;
use crate::text::{contains, decimal, decimal_string, join, join_strings, lemma_contains_middle};

verus! {

/// What the setup text reports on.
pub struct SetupState {
    pub gravitons: Vec<String>,
    pub thoughts: u64,
    pub claim_kinds: u64,
    pub intake_dir: String,
    pub mcp_registered: bool,
}

pub const SETUP_INTRO: &'static str = "# kern setup — instructions for the calling agent\n\
\n\
kern is this project's persistent memory: a per-directory daemon holding a\n\
knowledge graph. You (the agent) wire it into your host by following the\n\
steps below. Every step is idempotent — skip anything already [done].\n\n";

pub const SEED_HEADING: &'static str = "## Seed gravitons";

pub const SEED_BODY: &'static str = " (do this first)\n\
\n\
Gravitons are the focus areas ingest routes into. Call the `graviton`\n\
tool once per area. Adapt the texts to this project; 3-6 is right:\n\
\n\
- {\"action\":\"add\",\"name\":\"decisions\",\"text\":\"Architectural and design decisions, the alternatives considered, and the rationale.\"}\n\
- {\"action\":\"add\",\"name\":\"architecture\",\"text\":\"How the system is structured: components, data flow, and the boundaries between them.\"}\n\
- {\"action\":\"add\",\"name\":\"preferences\",\"text\":\"How this project wants to be worked on: style, conventions, things to avoid.\"}\n\n";

pub const CAPTURE_HEADING: &'static str = "## Wire capture into your host";

pub const CAPTURE_BODY: &'static str = "\n\
\n\
kern captures nothing on its own — you feed it. Two entry points:\n\
\n\
- `ingest` MCP tool (preferred): store one durable claim directly.\n\
- `.kern/intake/` drop dir: write a session transcript as a `.txt` file\n\
  there and the daemon distills it into claims in the background.\n\
\n\
Install a standing rule in your host's instruction file —\n\
AGENTS.md, .cursorrules, or the equivalent your host reads. Detect which\n\
applies by looking at the project root and your own configuration, then\n\
add this block if it is not already present:\n\
\n\
```\n\
## Memory (kern)\n\
- At task start: call kern `query` with the task topic to recall prior\n\
  decisions, preferences, and facts before deciding anything.\n\
- At task end, and whenever a durable decision, preference, constraint,\n\
  or hard-won fact emerges: call kern `ingest` with ONE self-contained\n\
  statement per fact. Include the why on decisions.\n\
- When recall returns something wrong or stale: call `degrade` with the\n\
  query id so it stops surfacing.\n\
```\n\
\n\
If your host supports lifecycle hooks (e.g. a session-end hook), also\n\
wire one that appends the session transcript to `";

pub const CAPTURE_TAIL: &'static str = "/<timestamp>.txt`\n\
so nothing depends on you remembering to ingest.\n\n";

pub const VERIFY_HEADING: &'static str = "## Verify";

pub const VERIFY_BODY: &'static str = "\n\
\n\
1. Call `ingest` with {\"text\":\"kern setup verified for this project.\",\"sync\":true} — expect status committed.\n\
2. Call `health` — expect `thoughts` to have increased.\n\
3. Call `query` with {\"text\":\"kern setup\"} — expect the claim back.\n\
\n\
If ingest fails: the embedding endpoint is down or misconfigured — check\n\
`.kern/kern.toml` [embed] and see the `health` embed_mismatch flag.\n\n";

pub const TUNE_HEADING: &'static str = "## Tune";

pub const TUNE_BODY: &'static str = " (optional)\n\
\n\
Memory tuning is one line in `.kern/kern.toml` — the preset owns every\n\
heat/dedup/retrieval knob; there are no individual keys to set:\n\
\n\
- `preset = \"relaxed\"` — the default: keep more, deliver more, forget slower\n\
- `preset = \"medium\"` — balanced\n\
- `preset = \"tight\"` — aggressive dedup, faster decay, fewer but sharper results\n\n";

pub const CONTRACT_TEXT: &'static str = "## Ongoing contract\n\
\n\
Query before deciding, ingest after deciding, degrade what misleads.\n\
Claims should be atomic, standalone statements — not summaries of a\n\
whole session. kern dedupes aggressively; re-ingesting a known fact is\n\
cheap and reinforces it.\n";

/// The progress mark of a setup step.
pub open spec fn check_label(done: bool) -> Seq<char> {
    if done {
        "[done]"@
    } else {
        "[todo]"@
    }
}

/// The mark for a step that is `done` or still to do.
pub fn check(done: bool) -> (r: &'static str)
    ensures
        r@ == check_label(done),
{
    if done {
        "[done]"
    } else {
        "[todo]"
    }
}

/// One line of the "Current state" section: its mark, then its text.
pub open spec fn status_line(done: bool, what: Seq<char>, detail: Seq<char>, tail: Seq<char>) -> Seq<char> {
    "- "@ + check_label(done) + what + detail + tail
}

/// The gravitons as the state line lists them.
pub open spec fn graviton_list(gravitons: Seq<Seq<char>>) -> Seq<char> {
    if gravitons.len() == 0 {
        "none"@
    } else {
        join(gravitons, ", "@)
    }
}

/// The "Current state" section: one line per step with its mark.
pub open spec fn state_lines(
    gravitons: Seq<Seq<char>>,
    thoughts: u64,
    claim_kinds: u64,
    mcp_registered: bool,
) -> Seq<char> {
    "## Current state\n\n"@
        + status_line(mcp_registered, " MCP registered for this project (.mcp.json)\n"@, Seq::empty(), Seq::empty())
        + status_line(gravitons.len() > 0, " gravitons seeded ("@, graviton_list(gravitons), ")\n"@)
        + status_line(claim_kinds > 0, " claim kinds registered ("@, decimal(claim_kinds as nat), ")\n"@)
        + status_line(thoughts > 0, " memory has content ("@, decimal(thoughts as nat), " thoughts)\n\n"@)
}

fn push_status_line(out: &mut String, done: bool, what: &str, detail: &str, tail: &str)
    ensures
        final(out)@ == old(out)@ + status_line(done, what@, detail@, tail@),
{
    let ghost before = out@;
    out.append("- ");
    out.append(check(done));
    out.append(what);
    out.append(detail);
    out.append(tail);
    assert(out@ =~= before + status_line(done, what@, detail@, tail@));
}

fn push_state_lines(out: &mut String, s: &SetupState)
    ensures
        final(out)@ == old(out)@ + state_lines(
            s.gravitons.deep_view(),
            s.thoughts,
            s.claim_kinds,
            s.mcp_registered,
        ),
{
    let ghost g = s.gravitons.deep_view();
    let ghost before = out@;
    let seeded = s.gravitons.len() > 0;
    assert(seeded == (g.len() > 0));
    let list = if seeded {
        join_strings(&s.gravitons, ", ")
    } else {
        String::from_str("none")
    };
    assert(list@ == graviton_list(g));
    let kinds = decimal_string(s.claim_kinds);
    let thoughts = decimal_string(s.thoughts);
    out.append("## Current state\n\n");
    let ghost a = out@;
    push_status_line(out, s.mcp_registered, " MCP registered for this project (.mcp.json)\n", "", "");
    let ghost b = out@;
    push_status_line(out, seeded, " gravitons seeded (", list.as_str(), ")\n");
    let ghost c = out@;
    push_status_line(out, s.claim_kinds > 0, " claim kinds registered (", kinds.as_str(), ")\n");
    let ghost d = out@;
    push_status_line(out, s.thoughts > 0, " memory has content (", thoughts.as_str(), " thoughts)\n\n");
    proof {
        reveal_strlit("");
        assert(""@ =~= Seq::<char>::empty());
    }
    assert(out@ =~= before + state_lines(g, s.thoughts, s.claim_kinds, s.mcp_registered));
}

/// The seeding step, offered only while no graviton exists.
pub open spec fn seed_section(gravitons: Seq<Seq<char>>) -> Seq<char> {
    if gravitons.len() == 0 {
        SEED_HEADING@ + SEED_BODY@
    } else {
        Seq::empty()
    }
}

/// The capture step, with the intake directory inlined.
pub open spec fn capture_section(intake_dir: Seq<char>) -> Seq<char> {
    CAPTURE_HEADING@ + CAPTURE_BODY@ + intake_dir + CAPTURE_TAIL@
}

/// The steps every setup text ends with: verify, tune, and the standing
/// contract.
pub open spec fn closing_sections() -> Seq<char> {
    VERIFY_HEADING@ + VERIFY_BODY@ + TUNE_HEADING@ + TUNE_BODY@ + CONTRACT_TEXT@
}

/// The whole setup text for a project in the given state.
pub open spec fn setup_text(
    gravitons: Seq<Seq<char>>,
    thoughts: u64,
    claim_kinds: u64,
    intake_dir: Seq<char>,
    mcp_registered: bool,
) -> Seq<char> {
    SETUP_INTRO@ + state_lines(gravitons, thoughts, claim_kinds, mcp_registered) + seed_section(
        gravitons,
    ) + capture_section(intake_dir) + closing_sections()
}

/// Whatever the project's state, the text carries the capture step with the
/// intake directory inlined, the verification step and the tuning step; and
/// a project with no graviton is told to seed them.
pub proof fn lemma_setup_always_guides(
    gravitons: Seq<Seq<char>>,
    thoughts: u64,
    claim_kinds: u64,
    intake_dir: Seq<char>,
    mcp_registered: bool,
)
    ensures
        ({
            let t = setup_text(gravitons, thoughts, claim_kinds, intake_dir, mcp_registered);
            &&& contains(t, CAPTURE_HEADING@)
            &&& contains(t, intake_dir)
            &&& contains(t, VERIFY_HEADING@)
            &&& contains(t, TUNE_HEADING@)
            &&& gravitons.len() == 0 ==> contains(t, SEED_HEADING@)
        }),
{
    let head = SETUP_INTRO@ + state_lines(gravitons, thoughts, claim_kinds, mcp_registered);
    let seed = seed_section(gravitons);
    let t = setup_text(gravitons, thoughts, claim_kinds, intake_dir, mcp_registered);
    let vb = VERIFY_BODY@;
    let tb = TUNE_BODY@;
    let ct = CONTRACT_TEXT@;
    let pre = head + seed;
    let cb = CAPTURE_BODY@;
    let ctail = CAPTURE_TAIL@;
    let closing = closing_sections();
    assert(t =~= pre + CAPTURE_HEADING@ + (cb + intake_dir + ctail + closing));
    lemma_contains_middle(pre, CAPTURE_HEADING@, cb + intake_dir + ctail + closing);
    assert(t =~= (pre + CAPTURE_HEADING@ + cb) + intake_dir + (ctail + closing));
    lemma_contains_middle(pre + CAPTURE_HEADING@ + cb, intake_dir, ctail + closing);
    let upto_verify = pre + capture_section(intake_dir);
    assert(t =~= upto_verify + VERIFY_HEADING@ + (vb + TUNE_HEADING@ + tb + ct));
    lemma_contains_middle(upto_verify, VERIFY_HEADING@, vb + TUNE_HEADING@ + tb + ct);
    assert(t =~= (upto_verify + VERIFY_HEADING@ + vb) + TUNE_HEADING@ + (tb + ct));
    lemma_contains_middle(upto_verify + VERIFY_HEADING@ + vb, TUNE_HEADING@, tb + ct);
    if gravitons.len() == 0 {
        assert(t =~= head + SEED_HEADING@ + (SEED_BODY@ + capture_section(intake_dir) + closing));
        lemma_contains_middle(head, SEED_HEADING@, SEED_BODY@ + capture_section(intake_dir) + closing);
    }
}

/// The setup instructions for the calling agent, with the project's current
/// gaps marked.
pub fn render_setup(s: &SetupState) -> (r: String)
    ensures
        r@ == setup_text(
            s.gravitons.deep_view(),
            s.thoughts,
            s.claim_kinds,
            s.intake_dir@,
            s.mcp_registered,
        ),
{
    let ghost g = s.gravitons.deep_view();
    let mut out = String::new();
    out.append(SETUP_INTRO);
    push_state_lines(&mut out, s);
    let seeded = s.gravitons.len() > 0;
    assert(seeded == (g.len() > 0));
    let ghost head = out@;
    if !seeded {
        out.append(SEED_HEADING);
        out.append(SEED_BODY);
    }
    assert(out@ =~= head + seed_section(g));
    let ghost seeded_part = out@;
    out.append(CAPTURE_HEADING);
    out.append(CAPTURE_BODY);
    out.append(s.intake_dir.as_str());
    out.append(CAPTURE_TAIL);
    assert(out@ =~= seeded_part + capture_section(s.intake_dir@));
    let ghost captured = out@;
    out.append(VERIFY_HEADING);
    out.append(VERIFY_BODY);
    out.append(TUNE_HEADING);
    out.append(TUNE_BODY);
    out.append(CONTRACT_TEXT);
    assert(out@ =~= captured + closing_sections());
    out
}

} // verus!
