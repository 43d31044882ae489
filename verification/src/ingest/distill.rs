//! Distilling a conversation into durable claims with a language model.
use vstd::prelude::*;
use std::time::SystemTime;
use crate::json::{f64_integral, get, get_member, get_str, integral_of_bits, parse_json_array, str_of, json_array_of, JsonNumber, JsonValue};
use crate::text::{
    chars_of, decimal, find, occurs_at, find_at, is_blank, is_blank_str, join, join_strings, lemma_find_from,
    lemma_rfind_upto, push_decimal, rfind, rfind_in, split_chars, split_on, str_eq, string_of,
    string_range, trim, trim_bounds, trim_nonempty, trim_nonempty_of, trim_str,
};
use crate::time::{parse_rfc3339, rfc3339_value};

verus! {

/// A claim drawn from a conversation.
#[derive(Debug, Clone, PartialEq, Eq)]
pub struct Claim {
    pub text: String,
    pub kind: String,
    pub valid_from: Option<SystemTime>,
    /// Turn numbers in the marked transcript the model cited; empty when it
    /// cited none.
    pub turns: Vec<usize>,
}

/// The built-in claim kinds; registered kinds extend this set.
pub const DEFAULT_KINDS: [&'static str; 7] = [
    "preference",
    "decision",
    "project",
    "fact",
    "code-fact",
    "reference",
    "procedural",
];

pub open spec fn default_kinds() -> Seq<Seq<char>> {
    seq![
        "preference"@,
        "decision"@,
        "project"@,
        "fact"@,
        "code-fact"@,
        "reference"@,
        "procedural"@,
    ]
}

/// The views of a sequence of strings.
pub open spec fn views(s: Seq<String>) -> Seq<Seq<char>> {
    s.map_values(|x: String| x@)
}

/// The kinds offered to the model: the defaults, then each registered kind
/// not already listed, in order.
pub open spec fn kinds_with(extra: Seq<Seq<char>>) -> Seq<Seq<char>>
    decreases extra.len(),
{
    if extra.len() == 0 {
        default_kinds()
    } else {
        let before = kinds_with(extra.drop_last());
        if before.contains(extra.last()) {
            before
        } else {
            before.push(extra.last())
        }
    }
}

/// The kinds, comma separated, as the prompt lists them.
pub open spec fn kind_list_text(extra: Seq<Seq<char>>) -> Seq<char> {
    join(kinds_with(extra), ", "@)
}

fn default_kind_strings() -> (v: Vec<String>)
    ensures
        v.deep_view() == default_kinds(),
{
    let mut v: Vec<String> = Vec::new();
    v.push(String::from_str("preference"));
    v.push(String::from_str("decision"));
    v.push(String::from_str("project"));
    v.push(String::from_str("fact"));
    v.push(String::from_str("code-fact"));
    v.push(String::from_str("reference"));
    v.push(String::from_str("procedural"));
    assert(v.deep_view() =~= default_kinds());
    v
}

fn listed(list: &[String], k: &str) -> (b: bool)
    ensures
        b == views(list@).contains(k@),
{
    let mut i: usize = 0;
    while i < list.len()
        invariant
            i <= list@.len(),
            forall|j: int| 0 <= j < i ==> views(list@)[j] != k@,
        decreases list.len() - i,
    {
        if str_eq(list[i].as_str(), k) {
            assert(views(list@)[i as int] == k@);
            return true;
        }
        i = i + 1;
    }
    false
}

/// The kinds offered to the model, comma separated: the defaults, then each
/// registered kind not already listed.
pub fn kind_list(extra_kinds: &[String]) -> (r: String)
    ensures
        r@ == kind_list_text(views(extra_kinds@)),
{
    let mut kinds = default_kind_strings();
    let mut i: usize = 0;
    while i < extra_kinds.len()
        invariant
            i <= extra_kinds@.len(),
            kinds.deep_view() == kinds_with(views(extra_kinds@).take(i as int)),
        decreases extra_kinds.len() - i,
    {
        let ghost pre = views(extra_kinds@).take(i as int);
        assert(views(extra_kinds@).take(i + 1).drop_last() =~= pre);
        assert(views(extra_kinds@).take(i + 1).last() == extra_kinds@[i as int]@);
        let k = extra_kinds[i].as_str();
        assert(views(kinds@) =~= kinds.deep_view());
        if !listed(kinds.as_slice(), k) {
            let ghost before = kinds.deep_view();
            kinds.push(String::from_str(k));
            assert(kinds.deep_view() =~= before.push(k@));
        }
        i = i + 1;
    }
    assert(views(extra_kinds@).take(i as int) =~= views(extra_kinds@));
    join_strings(&kinds, ", ")
}

/// The turns of a transcript: CRLF normalized to LF, split on blank lines,
/// trimmed, empty ones dropped.
pub open spec fn transcript_turns(c: Seq<char>) -> Seq<Seq<char>> {
    trim_nonempty(split_on(join(split_on(c, "\r\n"@), "\n"@), "\n\n"@))
}

fn join_pieces(parts: &Vec<Vec<char>>, sep: &[char]) -> (r: Vec<char>)
    ensures
        r@ == join(parts.deep_view(), sep@),
{
    let mut out: Vec<char> = Vec::new();
    let mut i: usize = 0;
    while i < parts.len()
        invariant
            i <= parts@.len(),
            out@ == join(parts.deep_view().take(i as int), sep@),
        decreases parts.len() - i,
    {
        let ghost pre = parts.deep_view().take(i as int);
        assert(parts.deep_view().take(i + 1).drop_last() =~= pre);
        assert(parts.deep_view().take(i + 1).last() == parts@[i as int]@);
        if i > 0 {
            let mut k: usize = 0;
            let ghost base = out@;
            while k < sep.len()
                invariant
                    k <= sep@.len(),
                    out@ == base + sep@.take(k as int),
                decreases sep.len() - k,
            {
                out.push(sep[k]);
                k = k + 1;
                assert(out@ =~= base + sep@.take(k as int));
            }
            assert(sep@.take(k as int) =~= sep@);
        } else {
            assert(parts.deep_view().take(1)[0] == parts@[0]@);
        }
        let piece = &parts[i];
        let mut k: usize = 0;
        let ghost base2 = out@;
        while k < piece.len()
            invariant
                k <= piece@.len(),
                out@ == base2 + piece@.take(k as int),
            decreases piece.len() - k,
        {
            out.push(piece[k]);
            k = k + 1;
            assert(out@ =~= base2 + piece@.take(k as int));
        }
        assert(piece@.take(k as int) =~= piece@);
        i = i + 1;
        assert(out@ =~= join(parts.deep_view().take(i as int), sep@));
    }
    assert(parts.deep_view().take(i as int) =~= parts.deep_view());
    out
}

/// Splits a transcript into turns on blank-line boundaries (see
/// `transcript_turns`).
pub fn split_turns(conversation: &str) -> (r: Vec<String>)
    ensures
        r.deep_view() == transcript_turns(conversation@),
{
    let v = chars_of(conversation);
    let crlf = chars_of("\r\n");
    let lf = chars_of("\n");
    let blank = chars_of("\n\n");
    proof {
        reveal_strlit("\r\n");
        reveal_strlit("\n\n");
    }
    let lines = split_chars(v.as_slice(), crlf.as_slice());
    let normalized = join_pieces(&lines, lf.as_slice());
    let paragraphs = split_chars(normalized.as_slice(), blank.as_slice());
    trim_nonempty_of(&paragraphs)
}

/// One marked turn: `[i] text`.
pub open spec fn marked_turn(i: nat, t: Seq<char>) -> Seq<char> {
    "["@ + decimal(i) + "] "@ + t
}

/// The transcript with each turn prefixed by its 1-based number in
/// brackets, turns separated by a blank line.
pub open spec fn marked_transcript(turns: Seq<Seq<char>>) -> Seq<char> {
    join(Seq::new(turns.len(), |i: int| marked_turn((i + 1) as nat, turns[i])), "\n\n"@)
}

fn mark_turns(turns: &Vec<String>) -> (r: String)
    ensures
        r@ == marked_transcript(turns.deep_view()),
{
    let mut marked: Vec<String> = Vec::new();
    let mut i: usize = 0;
    while i < turns.len()
        invariant
            i <= turns@.len(),
            marked.deep_view() == Seq::new(i as nat, |j: int| marked_turn((j + 1) as nat, turns.deep_view()[j])),
        decreases turns.len() - i,
    {
        let mut m = String::from_str("[");
        push_decimal(&mut m, (i as u64) + 1);
        m.append("] ");
        m.append(turns[i].as_str());
        let ghost before = marked.deep_view();
        marked.push(m);
        assert(marked.deep_view() =~= before.push(marked_turn((i + 1) as nat, turns.deep_view()[i as int])));
        i = i + 1;
        assert(marked.deep_view() =~= Seq::new(i as nat, |j: int| marked_turn((j + 1) as nat, turns.deep_view()[j])));
    }
    join_strings(&marked, "\n\n")
}

/// The prompt the model is asked: the kinds on offer, today's date for
/// resolving relative dates, and the marked transcript.
pub open spec fn distill_prompt(kinds: Seq<char>, today: Seq<char>, marked: Seq<char>) -> Seq<char> {
    "Extract durable, reusable knowledge from this conversation between a user and an AI coding assistant. The transcript below is marked with 1-based turn numbers in [brackets]. Output ONLY a JSON array. Each element must be {\"text\": \"<one self-contained statement>\", \"kind\": \"<one of: "@ + kinds + ">\"}. Optionally add \"valid_from\": \"<ISO8601 date>\" ONLY when the statement itself says when it became true (e.g. \"since March 2026\", \"as of v2\"); resolve relative date phrases (\"last Tuesday\", \"yesterday\", \"two weeks ago\") to the absolute ISO8601 date against today, which is "@ + today + ". Omit valid_from when the statement carries no date. Optionally add \"turns\": [<1-based turn numbers the claim is drawn from, as marked>] when the claim is grounded in specific turns; omit it when it spans the whole transcript or is uncertain. Include only knowledge worth remembering across future sessions: user preferences, decisions and their rationale, ongoing project state, durable facts, structural code facts, external references, and procedural knowledge (learned workflows, rules, and conventions — how we do X, not just what is true). Consolidate aggressively: emit ONE claim per distinct fact. Do NOT output multiple claims that restate the same idea, and do NOT output sentence fragments — each claim must be a complete, standalone statement that captures the fact in full. Prefer the single most complete phrasing over several partial ones. Skip greetings, acknowledgements, one-off task mechanics, and anything ephemeral. If nothing is worth keeping, output []. Do not wrap the array in markdown.\n\nCONVERSATION:\n"@ + marked + "\n"@
}

/// A cited turn as the parser reads it: a non-negative integer as itself, a
/// negative one as zero (dropped later), a float only when it is whole (its
/// value, negative ones as zero); nothing for a non-integer or anything but
/// a number.
pub open spec fn turn_value(x: JsonValue) -> Option<u64> {
    match x {
        JsonValue::Number(JsonNumber::Unsigned(u)) => Some(u),
        JsonValue::Number(JsonNumber::Signed(_)) => Some(0),
        JsonValue::Number(JsonNumber::Float(Some(bits))) => match f64_integral(bits) {
            Some((neg, m)) => Some(if neg { 0u64 } else { m }),
            None => None,
        },
        _ => None,
    }
}

/// The cited turns: every one at least 1, in order.
pub open spec fn turns_of(a: Seq<JsonValue>) -> Seq<usize>
    decreases a.len(),
{
    if a.len() == 0 {
        Seq::empty()
    } else {
        let rest = turns_of(a.drop_last());
        match turn_value(a.last()) {
            Some(n) => if n >= 1 {
                rest.push(n as usize)
            } else {
                rest
            },
            None => rest,
        }
    }
}

/// What a claim holds, as the model's reply determines it. `valid_from` is
/// the Unix seconds of the cited date, when one is given and parses.
pub struct ClaimModel {
    pub text: Seq<char>,
    pub kind: Seq<char>,
    pub valid_from: Option<int>,
    pub turns: Seq<usize>,
}

/// The claim one reply element makes: none without text; an unknown or
/// missing kind falls back to `fact`; a blank or unparseable `valid_from` is
/// none.
pub open spec fn claim_of(it: JsonValue, extra: Seq<Seq<char>>) -> Option<ClaimModel> {
    let text = trim(
        match str_of(get(it, "text"@)) {
            Some(t) => t,
            None => Seq::empty(),
        },
    );
    if text.len() == 0 {
        None
    } else {
        let kind_raw = trim(
            match str_of(get(it, "kind"@)) {
                Some(k) => k,
                None => "fact"@,
            },
        );
        let kind = if default_kinds().contains(kind_raw) || extra.contains(kind_raw) {
            kind_raw
        } else {
            "fact"@
        };
        let valid_from = match str_of(get(it, "valid_from"@)) {
            Some(v) => if trim(v).len() > 0 {
                rfc3339_value(trim(v))
            } else {
                None
            },
            None => None,
        };
        let turns = match get(it, "turns"@) {
            Some(JsonValue::Array(a)) => turns_of(a@),
            _ => Seq::empty(),
        };
        Some(ClaimModel { text, kind, valid_from, turns })
    }
}

/// The claims of the reply elements, in order.
pub open spec fn claims_of_items(items: Seq<JsonValue>, extra: Seq<Seq<char>>) -> Seq<ClaimModel>
    decreases items.len(),
{
    if items.len() == 0 {
        Seq::empty()
    } else {
        let rest = claims_of_items(items.drop_last(), extra);
        match claim_of(items.last(), extra) {
            Some(c) => rest.push(c),
            None => rest,
        }
    }
}

/// A claim the parser can produce: it has text, and a kind the model was
/// offered.
pub open spec fn claim_well_formed(c: ClaimModel, extra: Seq<Seq<char>>) -> bool {
    &&& c.text.len() > 0
    &&& (default_kinds().contains(c.kind) || extra.contains(c.kind))
}

/// Whatever the model replies, every claim read from it has text and carries
/// a kind from the offered list: an unknown or missing kind falls back to
/// `fact`.
pub proof fn lemma_claims_well_formed(items: Seq<JsonValue>, extra: Seq<Seq<char>>)
    ensures
        forall|i: int|
            0 <= i < claims_of_items(items, extra).len() ==> claim_well_formed(
                #[trigger] claims_of_items(items, extra)[i],
                extra,
            ),
    decreases items.len(),
{
    if items.len() > 0 {
        lemma_claims_well_formed(items.drop_last(), extra);
        let rest = claims_of_items(items.drop_last(), extra);
        reveal_strlit("fact");
        assert(default_kinds()[3] == "fact"@);
        assert(default_kinds().contains("fact"@));
        match claim_of(items.last(), extra) {
            Some(c) => {
                assert(claim_well_formed(c, extra));
                assert(claims_of_items(items, extra) == rest.push(c));
                assert forall|i: int| 0 <= i < rest.push(c).len() implies claim_well_formed(
                    #[trigger] rest.push(c)[i],
                    extra,
                ) by {
                    if i < rest.len() {
                        assert(rest.push(c)[i] == rest[i]);
                    }
                }
            },
            None => {},
        }
    }
}

/// The kinds offered to the model are listed once each: every default kind
/// and every registered kind appears, and none twice.
pub proof fn lemma_kinds_offered(extra: Seq<Seq<char>>)
    ensures
        kinds_with(extra).no_duplicates(),
        forall|i: int| 0 <= i < default_kinds().len() ==> kinds_with(extra).contains(#[trigger] default_kinds()[i]),
        forall|i: int| 0 <= i < extra.len() ==> kinds_with(extra).contains(#[trigger] extra[i]),
    decreases extra.len(),
{
    if extra.len() == 0 {
        reveal_strlit("preference");
        reveal_strlit("decision");
        reveal_strlit("project");
        reveal_strlit("fact");
        reveal_strlit("code-fact");
        reveal_strlit("reference");
        reveal_strlit("procedural");
        let d = default_kinds();
        assert forall|i: int| 0 <= i < d.len() implies d.contains(#[trigger] d[i]) by {}
        assert forall|i: int, j: int| 0 <= i < d.len() && 0 <= j < d.len() && i != j implies d[i] != d[j] by {
            if d[i] == d[j] {
                assert(d[i].len() == d[j].len());
                assert(d[i][0] == d[j][0]);
                assert(d[i][d[i].len() - 1] == d[j][d[j].len() - 1]);
            }
        }
    } else {
        let before = extra.drop_last();
        lemma_kinds_offered(before);
        let k = extra.last();
        let kb = kinds_with(before);
        if !kb.contains(k) {
            assert(kinds_with(extra) == kb.push(k));
            assert forall|a: int, b: int| 0 <= a < kb.push(k).len() && 0 <= b < kb.push(k).len() && a != b implies kb.push(k)[a] != kb.push(k)[b] by {
                if a < kb.len() && b < kb.len() {
                } else if a == kb.len() {
                    assert(kb[b] != k);
                } else {
                    assert(kb[a] != k);
                }
            }
        }
        assert forall|i: int| 0 <= i < default_kinds().len() implies kinds_with(extra).contains(#[trigger] default_kinds()[i]) by {
            let w = choose|j: int| 0 <= j < kb.len() && kb[j] == default_kinds()[i];
            assert(kinds_with(extra)[w] == default_kinds()[i]);
        }
        assert forall|i: int| 0 <= i < extra.len() implies kinds_with(extra).contains(#[trigger] extra[i]) by {
            if i < before.len() {
                assert(before[i] == extra[i]);
                let w = choose|j: int| 0 <= j < kb.len() && kb[j] == before[i];
                assert(kinds_with(extra)[w] == extra[i]);
            } else if kb.contains(k) {
            } else {
                assert(kinds_with(extra)[kb.len() as int] == k);
            }
        }
    }
}

/// A lone nested array is unwrapped; any other list of elements stands.
pub open spec fn unwrapped(items: Seq<JsonValue>) -> Seq<JsonValue> {
    if items.len() == 1 && items[0] is Array {
        items[0]->Array_0@
    } else {
        items
    }
}

/// The claims a reply carries: the span from its first `[` to its last `]`
/// must parse as a JSON array, or the reply has none to give (a format
/// failure the caller retries); otherwise its elements' claims.
pub open spec fn reply_claims(raw: Seq<char>, extra: Seq<Seq<char>>) -> Option<Seq<ClaimModel>> {
    match (find(raw, seq!['[']), rfind(raw, seq![']'])) {
        (Some(s), Some(e)) => if e > s {
            match json_array_of(raw.subrange(s, e + 1)) {
                Some(items) => Some(claims_of_items(unwrapped(items), extra)),
                None => None,
            }
        } else {
            None
        },
        _ => None,
    }
}

/// A parsed claim matches its model. Whether a cited date becomes a
/// `SystemTime` is the platform's call, so only its presence is tied: a
/// claim carries a date only when the model has one.
pub open spec fn claim_matches(c: Claim, m: ClaimModel) -> bool {
    &&& c.text@ == m.text
    &&& c.kind@ == m.kind
    &&& c.turns@ == m.turns
    &&& c.valid_from matches Some(t) ==> m.valid_from == Some(crate::time::offset_secs(crate::time::offset_of_time(t)))
    &&& m.valid_from is None ==> c.valid_from is None
}

pub open spec fn claims_match(r: Option<Vec<Claim>>, m: Option<Seq<ClaimModel>>) -> bool {
    match (r, m) {
        (None, None) => true,
        (Some(cs), Some(ms)) => cs@.len() == ms.len() && forall|i: int|
            0 <= i < ms.len() ==> claim_matches(#[trigger] cs@[i], ms[i]),
        _ => false,
    }
}

fn turn_of(x: &JsonValue) -> (r: Option<u64>)
    ensures
        r == turn_value(*x),
{
    match x {
        JsonValue::Number(JsonNumber::Unsigned(u)) => Some(*u),
        JsonValue::Number(JsonNumber::Signed(_)) => Some(0),
        JsonValue::Number(JsonNumber::Float(Some(bits))) => match integral_of_bits(*bits) {
            Some((neg, m)) => Some(if neg { 0u64 } else { m }),
            None => None,
        },
        _ => None,
    }
}

fn turns_from(a: &Vec<JsonValue>) -> (r: Vec<usize>)
    ensures
        r@ == turns_of(a@),
{
    let mut out: Vec<usize> = Vec::new();
    let mut i: usize = 0;
    while i < a.len()
        invariant
            i <= a@.len(),
            out@ == turns_of(a@.take(i as int)),
        decreases a.len() - i,
    {
        assert(a@.take(i + 1).drop_last() =~= a@.take(i as int));
        assert(a@.take(i + 1).last() == a@[i as int]);
        if let Some(n) = turn_of(&a[i]) {
            if n >= 1 {
                out.push(n as usize);
            }
        }
        i = i + 1;
    }
    assert(a@.take(i as int) =~= a@);
    out
}

fn claim_from(it: &JsonValue, extra_kinds: &[String]) -> (r: Option<Claim>)
    ensures
        match r {
            Some(c) => claim_of(*it, views(extra_kinds@)) matches Some(m) && claim_matches(c, m),
            None => claim_of(*it, views(extra_kinds@)) is None,
        },
{
    proof {
        reveal_strlit("fact");
        crate::text::lemma_trim_plain("fact"@);
        assert(trim(Seq::<char>::empty()) =~= Seq::<char>::empty());
    }
    let text = match get_str(it, "text") {
        Some(t) => trim_str(t),
        None => String::new(),
    };
    if is_blank_str(text.as_str()) {
        proof {
            crate::text::lemma_blank_iff_trim_empty(text@);
            crate::text::lemma_trim_shape(text@);
        }
        if text.as_str().is_empty() {
            return None;
        }
    }
    if text.as_str().is_empty() {
        return None;
    }
    let kind_raw = match get_str(it, "kind") {
        Some(k) => trim_str(k),
        None => String::from_str("fact"),
    };
    let defaults = default_kind_strings();
    assert(views(defaults@) =~= defaults.deep_view());
    let known = listed(defaults.as_slice(), kind_raw.as_str()) || listed(extra_kinds, kind_raw.as_str());
    let kind = if known {
        kind_raw
    } else {
        String::from_str("fact")
    };
    let valid_from: Option<SystemTime> = match get_str(it, "valid_from") {
        Some(v) => {
            let t = trim_str(v);
            if t.as_str().is_empty() {
                None
            } else {
                match parse_rfc3339(t.as_str()) {
                    Ok(x) => Some(x),
                    Err(()) => None,
                }
            }
        },
        None => None,
    };
    let turns: Vec<usize> = match get_member(it, "turns") {
        Some(JsonValue::Array(a)) => turns_from(a),
        _ => Vec::new(),
    };
    Some(Claim { text, kind, valid_from, turns })
}

/// Reads the claims out of a model reply (see `reply_claims`): `None` when the
/// span from its first `[` to its last `]` is not a JSON array, else the
/// claims of its elements — possibly none, a genuine "nothing worth keeping".
pub fn parse_claims(raw: &str, extra_kinds: &[String]) -> (r: Option<Vec<Claim>>)
    ensures
        claims_match(r, reply_claims(raw@, views(extra_kinds@))),
{
    let v = chars_of(raw);
    let open_b = vec!['['];
    let close_b = vec![']'];
    assert(open_b@ =~= seq!['[']);
    assert(close_b@ =~= seq![']']);
    let first = find_at(v.as_slice(), open_b.as_slice(), 0);
    let last = rfind_in(v.as_slice(), close_b.as_slice());
    let (start, end) = match (first, last) {
        (Some(s), Some(e)) => {
            if e <= s {
                return None;
            }
            (s, e)
        },
        _ => return None,
    };
    proof {
        lemma_rfind_upto(v@, close_b@, v@.len() - close_b@.len());
        assert(occurs_at(v@, end as int, close_b@));
    }
    let n = v.len();
    assert(end < n);
    let span = string_range(v.as_slice(), start, end + 1);
    let parsed = match parse_json_array(span.as_str()) {
        Some(items) => items,
        None => return None,
    };
    let items: &Vec<JsonValue> = if parsed.len() == 1 {
        match &parsed[0] {
            JsonValue::Array(inner) => inner,
            _ => &parsed,
        }
    } else {
        &parsed
    };
    let ghost ex = views(extra_kinds@);
    assert(items@ == unwrapped(parsed@));
    let mut out: Vec<Claim> = Vec::new();
    let mut i: usize = 0;
    while i < items.len()
        invariant
            i <= items@.len(),
            ex == views(extra_kinds@),
            out@.len() == claims_of_items(items@.take(i as int), ex).len(),
            forall|k: int| 0 <= k < out@.len() ==> claim_matches(#[trigger] out@[k], claims_of_items(items@.take(i as int), ex)[k]),
        decreases items.len() - i,
    {
        assert(items@.take(i + 1).drop_last() =~= items@.take(i as int));
        assert(items@.take(i + 1).last() == items@[i as int]);
        let ghost before = claims_of_items(items@.take(i as int), ex);
        match claim_from(&items[i], extra_kinds) {
            Some(c) => {
                out.push(c);
                assert(claims_of_items(items@.take(i + 1), ex) == before.push(claim_of(items@[i as int], ex)->Some_0));
            },
            None => {},
        }
        i = i + 1;
    }
    assert(items@.take(i as int) =~= items@);
    Some(out)
}

/// What `distill` does once it has the model's reply: an empty or blank reply
/// is no usable output; otherwise the claims the reply carries.
pub open spec fn distilled(raw: Seq<char>, extra: Seq<Seq<char>>) -> Option<Seq<ClaimModel>> {
    if is_blank(raw) {
        None
    } else {
        reply_claims(raw, extra)
    }
}

/// Distills `conversation` into claims with `llm`, naming `today` in the
/// prompt so relative dates resolve. A blank conversation yields no claims
/// without asking the model. `None` means the model gave no usable output —
/// an empty reply, or one with no parseable JSON array — and the caller must
/// retry rather than archive; `Some([])` is a genuine "nothing worth keeping".
pub fn distill_dated<F: Fn(&str) -> String>(
    conversation: &str,
    extra_kinds: &[String],
    llm: &F,
    today: &str,
) -> (r: Option<Vec<Claim>>)
    requires
        forall|q: &str| #[trigger] call_requires(*llm, (q,)),
    ensures
        is_blank(conversation@) ==> (r matches Some(v) && v@.len() == 0),
        !is_blank(conversation@) ==> exists|prompt: &str, raw: String|
            {
                &&& prompt@ == distill_prompt(
                    kind_list_text(views(extra_kinds@)),
                    today@,
                    marked_transcript(transcript_turns(conversation@)),
                )
                &&& #[trigger] call_ensures(*llm, (prompt,), raw)
                &&& claims_match(r, distilled(raw@, views(extra_kinds@)))
            },
{
    if is_blank_str(conversation) {
        return Some(Vec::new());
    }
    let kinds = kind_list(extra_kinds);
    let turns = split_turns(conversation);
    let marked = mark_turns(&turns);
    let mut prompt = String::from_str("Extract durable, reusable knowledge from this conversation between a user and an AI coding assistant. The transcript below is marked with 1-based turn numbers in [brackets]. Output ONLY a JSON array. Each element must be {\"text\": \"<one self-contained statement>\", \"kind\": \"<one of: ");
    prompt.append(kinds.as_str());
    prompt.append(">\"}. Optionally add \"valid_from\": \"<ISO8601 date>\" ONLY when the statement itself says when it became true (e.g. \"since March 2026\", \"as of v2\"); resolve relative date phrases (\"last Tuesday\", \"yesterday\", \"two weeks ago\") to the absolute ISO8601 date against today, which is ");
    prompt.append(today);
    prompt.append(". Omit valid_from when the statement carries no date. Optionally add \"turns\": [<1-based turn numbers the claim is drawn from, as marked>] when the claim is grounded in specific turns; omit it when it spans the whole transcript or is uncertain. Include only knowledge worth remembering across future sessions: user preferences, decisions and their rationale, ongoing project state, durable facts, structural code facts, external references, and procedural knowledge (learned workflows, rules, and conventions — how we do X, not just what is true). Consolidate aggressively: emit ONE claim per distinct fact. Do NOT output multiple claims that restate the same idea, and do NOT output sentence fragments — each claim must be a complete, standalone statement that captures the fact in full. Prefer the single most complete phrasing over several partial ones. Skip greetings, acknowledgements, one-off task mechanics, and anything ephemeral. If nothing is worth keeping, output []. Do not wrap the array in markdown.\n\nCONVERSATION:\n");
    prompt.append(marked.as_str());
    prompt.append("\n");
    assert(prompt@ =~= distill_prompt(
        kind_list_text(views(extra_kinds@)),
        today@,
        marked_transcript(transcript_turns(conversation@)),
    ));
    let p = prompt.as_str();
    let raw = llm(p);
    if is_blank_str(raw.as_str()) {
        assert(call_ensures(*llm, (p,), raw));
        return None;
    }
    let r = parse_claims(raw.as_str(), extra_kinds);
    assert(call_ensures(*llm, (p,), raw));
    r
}

/// What `distill` gives back for `conversation`: no claims for a blank one,
/// without asking the model; otherwise the claims of what the model replied
/// to the prompt naming the kinds, the UTC date of `now` and the marked
/// transcript.
pub open spec fn distill_result<F: Fn(&str) -> String>(
    conversation: Seq<char>,
    extra: Seq<Seq<char>>,
    llm: F,
    now: SystemTime,
    r: Option<Vec<Claim>>,
) -> bool {
    &&& is_blank(conversation) ==> (r matches Some(v) && v@.len() == 0)
    &&& !is_blank(conversation) ==> exists|prompt: &str, raw: String, today: Seq<char>|
        #![trigger call_ensures(llm, (prompt,), raw), crate::time::offset_date(crate::time::offset_of_time(now), today)]
        {
            &&& crate::time::offset_date(crate::time::offset_of_time(now), today)
            &&& prompt@ == distill_prompt(
                kind_list_text(extra),
                today,
                marked_transcript(transcript_turns(conversation)),
            )
            &&& call_ensures(llm, (prompt,), raw)
            &&& claims_match(r, distilled(raw@, extra))
        }
}

/// Distills `conversation` into claims with `llm` (see `distill_dated`),
/// naming the UTC date of `now` as today.
pub fn distill<F: Fn(&str) -> String>(
    conversation: &str,
    extra_kinds: &[String],
    llm: &F,
    now: SystemTime,
) -> (r: Option<Vec<Claim>>)
    requires
        forall|q: &str| #[trigger] call_requires(*llm, (q,)),
    ensures
        distill_result(conversation@, views(extra_kinds@), *llm, now, r),
{
    if is_blank_str(conversation) {
        return Some(Vec::new());
    }
    let today = crate::time::date_string(now);
    distill_dated(conversation, extra_kinds, llm, today.as_str())
}


} // verus!
