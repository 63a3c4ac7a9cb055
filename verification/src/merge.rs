//! Putting items together that a model says describe the same change at
//! different places of a file.
use vstd::multiset::Multiset;
use vstd::prelude::*;

use crate::classify::{Category, Finding, FindingView, Level, Side, Source, SourceView};
use crate::consolidate;
use crate::consolidate::{InclusiveLineRange, Item, ItemView, Location, LocationView};
use crate::json;
use crate::json::{Json, JsonView};
use crate::llm;
use crate::llm::{HttpRequest, LlmConfig, LlmProvider};
use crate::path;
use crate::text;

verus! {

// --- asking --------------------------------------------------------------

/// The positions below `n` of the items that a model is asked about: those
/// that are not skipped.
pub open spec fn eligible_below(items: Seq<ItemView>, n: nat) -> Seq<usize>
    decreases n,
{
    if n == 0 {
        Seq::empty()
    } else if consolidate::top_level(items[n - 1].findings) == Level::Skip {
        eligible_below(items, (n - 1) as nat)
    } else {
        eligible_below(items, (n - 1) as nat).push((n - 1) as usize)
    }
}

/// The positions of the items that a model is asked about.
pub open spec fn eligible_of(items: Seq<ItemView>) -> Seq<usize> {
    eligible_below(items, items.len())
}

proof fn lemma_eligible_below(items: Seq<ItemView>, n: nat)
    requires
        n <= items.len() <= usize::MAX,
    ensures
        forall|k: int|
            0 <= k < eligible_below(items, n).len() ==> #[trigger] eligible_below(items, n)[k] < n,
    decreases n,
{
    if n > 0 {
        lemma_eligible_below(items, (n - 1) as nat);
        let shorter = eligible_below(items, (n - 1) as nat);
        assert forall|k: int| 0 <= k < eligible_below(items, n).len() implies #[trigger]
            eligible_below(items, n)[k] < n by {
            assert(k < shorter.len() ==> eligible_below(items, n)[k] == shorter[k]);
        }
    }
}

/// The positions of the items that a model is asked about.
fn eligible(items: &Vec<Item>) -> (r: Vec<usize>)
    ensures
        r@ == eligible_of(text::views(items@)),
        forall|k: int| 0 <= k < r@.len() ==> #[trigger] r@[k] < items@.len(),
{
    let ghost all = text::views(items@);
    let mut out: Vec<usize> = Vec::new();
    let mut i: usize = 0;
    while i < items.len()
        invariant
            i <= items.len(),
            all == text::views(items@),
            out@ == eligible_below(all, i as nat),
        decreases items.len() - i,
    {
        if items[i].level() != Level::Skip {
            out.push(i);
        }
        i = i + 1;
    }
    proof {
        lemma_eligible_below(all, all.len());
    }
    out
}

pub const CONSOLIDATION_SYSTEM_PROMPT: &'static str = "You are consolidating duplicate findings from a code review tool. Each finding has an index, a file:line range, a diff side (NEW = post-image, OLD = pre-image), and one or more one-sentence rationales. Identify groups of findings that describe substantively the same kind of change repeated at different locations in the same file (e.g., the same modification pattern applied to a LowPass and a HighPass struct). Do not group findings that merely share a topic but describe different changes. Only group findings from the same file AND the same side — never mix NEW-side and OLD-side items. Items in no group remain as-is. Respond with strict JSON only.";

pub const GROUP_FORMAT: &'static str = "\nRespond ONLY with valid JSON:\n{\n  \"groups\": [\n    {\n      \"ids\": [<indices, 2+>],\n      \"merged_rationale\": \"one sentence covering all grouped locations\"\n    }\n  ]\n}\nEach id must appear in at most one group. All ids within a group must share the same file AND the same side. Findings not listed in any group stay as-is.\n";

pub open spec fn side_label(s: Side) -> Seq<char> {
    match s {
        Side::New => "NEW"@,
        Side::Old => "OLD"@,
    }
}

/// The first `n` characters of a text.
pub open spec fn shortened(s: Seq<char>, n: int) -> Seq<char> {
    if s.len() > n {
        s.take(n)
    } else {
        s
    }
}

/// What the prompt says of findings: the beginning of each rationale.
pub open spec fn rationale_lines(fs: Seq<FindingView>) -> Seq<char>
    decreases fs.len(),
{
    if fs.len() == 0 {
        Seq::empty()
    } else {
        rationale_lines(fs.drop_last()) + "    - "@ + shortened(fs.last().rationale, 240) + "\n"@
    }
}

/// What the prompt says of the item at position `i`.
pub open spec fn item_prompt(i: usize, item: ItemView) -> Seq<char> {
    "["@ + text::dec(i as nat) + "] "@ + item.file_path + ":"@ + text::dec(item.range.start as nat)
        + "-"@ + text::dec(item.range.end as nat) + " ["@ + side_label(item.side) + "]:\n"@
        + rationale_lines(item.findings)
}

pub open spec fn item_prompts(items: Seq<ItemView>, ids: Seq<usize>) -> Seq<char>
    decreases ids.len(),
{
    if ids.len() == 0 {
        Seq::empty()
    } else {
        item_prompts(items, ids.drop_last()) + item_prompt(ids.last(), items[ids.last() as int])
    }
}

/// The prompt about the items at these positions.
pub open spec fn consolidation_prompt(items: Seq<ItemView>, ids: Seq<usize>) -> Seq<char> {
    "Findings:\n"@ + item_prompts(items, ids) + GROUP_FORMAT@
}

fn first_chars(s: &str, n: usize) -> (r: String)
    ensures
        r@ == shortened(s@, n as int),
{
    let cs: Vec<char> = text::chars(s);
    if cs.len() > n {
        assert(s@.subrange(0, n as int) == s@.take(n as int));
        text::string(vstd::slice::slice_subrange(&cs, 0, n))
    } else {
        text::string(&cs)
    }
}

fn one_item_prompt(i: usize, item: &Item) -> (r: String)
    ensures
        r@ == item_prompt(i, item@),
{
    let mut out: String = "[".to_string();
    out.append(text::decimal(i as u64).as_str());
    out.append("] ");
    out.append(item.file_path.as_str());
    out.append(":");
    out.append(text::decimal(item.range.start as u64).as_str());
    out.append("-");
    out.append(text::decimal(item.range.end as u64).as_str());
    out.append(" [");
    match item.side {
        Side::New => out.append("NEW"),
        Side::Old => out.append("OLD"),
    }
    out.append("]:\n");
    let ghost start = out@;
    let ghost fs = text::views(item.findings@);
    let mut k: usize = 0;
    assert(start + rationale_lines(fs.take(0)) =~= start);
    while k < item.findings.len()
        invariant
            k <= item.findings.len(),
            fs == text::views(item.findings@),
            out@ == start + rationale_lines(fs.take(k as int)),
        decreases item.findings.len() - k,
    {
        out.append("    - ");
        out.append(first_chars(item.findings[k].rationale.as_str(), 240).as_str());
        out.append("\n");
        assert(fs.take(k + 1).drop_last() == fs.take(k as int));
        assert(fs.take(k + 1).last() == item.findings@[k as int]@);
        k = k + 1;
        assert(out@ =~= start + rationale_lines(fs.take(k as int)));
    }
    assert(fs.take(k as int) == fs);
    out
}

fn build_consolidation_prompt(items: &Vec<Item>, ids: &Vec<usize>) -> (r: String)
    requires
        forall|k: int| 0 <= k < ids@.len() ==> #[trigger] ids@[k] < items@.len(),
    ensures
        r@ == consolidation_prompt(text::views(items@), ids@),
{
    let ghost all = text::views(items@);
    let mut out: String = "Findings:\n".to_string();
    let mut k: usize = 0;
    assert("Findings:\n"@ + item_prompts(all, ids@.take(0)) =~= "Findings:\n"@);
    while k < ids.len()
        invariant
            k <= ids.len(),
            all == text::views(items@),
            forall|j: int| 0 <= j < ids@.len() ==> #[trigger] ids@[j] < items@.len(),
            out@ == "Findings:\n"@ + item_prompts(all, ids@.take(k as int)),
        decreases ids.len() - k,
    {
        let i: usize = ids[k];
        out.append(one_item_prompt(i, &items[i]).as_str());
        assert(ids@.take(k + 1).drop_last() == ids@.take(k as int));
        assert(ids@.take(k + 1).last() == i);
        assert(all[i as int] == items@[i as int]@);
        k = k + 1;
        assert(out@ =~= "Findings:\n"@ + item_prompts(all, ids@.take(k as int)));
    }
    assert(ids@.take(k as int) == ids@);
    out.append(GROUP_FORMAT);
    out
}

/// The request that asks which items belong together. A model is only asked
/// about two items or more.
pub open spec fn consolidation_request_of(config: LlmConfig, items: Seq<ItemView>) -> Option<
    llm::HttpRequestView,
> {
    if eligible_of(items).len() < 2 {
        None
    } else {
        Some(
            llm::request_of(
                config,
                4096,
                CONSOLIDATION_SYSTEM_PROMPT@,
                consolidation_prompt(items, eligible_of(items)),
            ),
        )
    }
}

/// The request that asks the model which items belong together; `None` where
/// there is nothing to ask.
pub fn consolidation_request(items: &Vec<Item>, config: &LlmConfig) -> (r: Option<HttpRequest>)
    ensures
        text::opt_view(r) == consolidation_request_of(*config, text::views(items@)),
{
    let ids: Vec<usize> = eligible(items);
    if ids.len() < 2 {
        return None;
    }
    let prompt: String = build_consolidation_prompt(items, &ids);
    Some(llm::request(config, 4096, CONSOLIDATION_SYSTEM_PROMPT, prompt.as_str()))
}

// --- the groups in an answer ---------------------------------------------

/// Items that belong together, by their positions, and why.
#[derive(Debug)]
pub struct Group {
    pub ids: Vec<usize>,
    pub rationale: String,
}

#[verifier::ext_equal]
pub struct GroupView {
    pub ids: Seq<usize>,
    pub rationale: Seq<char>,
}

impl View for Group {
    type V = GroupView;

    open spec fn view(&self) -> GroupView {
        GroupView { ids: self.ids@, rationale: self.rationale@ }
    }
}

/// The natural numbers among these values.
pub open spec fn naturals(vs: Seq<JsonView>) -> Seq<usize>
    decreases vs.len(),
{
    if vs.len() == 0 {
        Seq::empty()
    } else {
        match json::natural_of(vs.last()) {
            Some(n) => naturals(vs.drop_last()).push(n as usize),
            None => naturals(vs.drop_last()),
        }
    }
}

/// The item is in one of the groups.
pub open spec fn claimed(groups: Seq<GroupView>, id: usize) -> bool {
    exists|g: int| 0 <= g < groups.len() && (#[trigger] groups[g]).ids.contains(id)
}

/// Two items are on the same side of the same file.
pub open spec fn agree(a: ItemView, b: ItemView) -> bool {
    path::parts_of(a.file_path) == path::parts_of(b.file_path) && a.side == b.side
}

/// The group that an answer proposes, if it can be had beside those that were
/// taken before: two items or more, all of them asked about, none in a group
/// yet, all on the same side of the same file, and with a reason.
pub open spec fn accepted(
    proposal: JsonView,
    eligible: Seq<usize>,
    items: Seq<ItemView>,
    before: Seq<GroupView>,
) -> Option<GroupView> {
    match json::array_of(json::member(proposal, "ids"@)) {
        None => None,
        Some(vs) => {
            let ids = naturals(vs);
            let rationale = json::text_or(json::member(proposal, "merged_rationale"@), ""@);
            if ids.len() >= 2 && (forall|k: int|
                0 <= k < ids.len() ==> eligible.contains(#[trigger] ids[k]) && !claimed(
                    before,
                    ids[k],
                ) && agree(items[ids[k] as int], items[ids[0] as int])) && rationale.len() > 0 {
                Some(GroupView { ids, rationale })
            } else {
                None
            }
        },
    }
}

/// The groups that are taken from these proposals, in order.
pub open spec fn groups_in(
    proposals: Seq<JsonView>,
    eligible: Seq<usize>,
    items: Seq<ItemView>,
) -> Seq<GroupView>
    decreases proposals.len(),
{
    if proposals.len() == 0 {
        Seq::empty()
    } else {
        let before = groups_in(proposals.drop_last(), eligible, items);
        match accepted(proposals.last(), eligible, items, before) {
            Some(g) => before.push(g),
            None => before,
        }
    }
}

/// The groups in an answer.
pub open spec fn groups_of(
    answer: JsonView,
    eligible: Seq<usize>,
    items: Seq<ItemView>,
) -> Seq<GroupView> {
    match json::array_of(json::member(answer, "groups"@)) {
        Some(a) => groups_in(a, eligible, items),
        None => Seq::empty(),
    }
}

/// The groups in a response; none where it holds no JSON document.
pub open spec fn response_groups(
    raw: Seq<char>,
    eligible: Seq<usize>,
    items: Seq<ItemView>,
) -> Seq<GroupView> {
    match json::json_read(llm::json_part(raw)) {
        Some(v) => groups_of(v, eligible, items),
        None => Seq::empty(),
    }
}

fn read_naturals(vs: &Vec<Json>) -> (r: Vec<usize>)
    ensures
        r@ == naturals(text::views(vs@)),
{
    let ghost all = text::views(vs@);
    let mut out: Vec<usize> = Vec::new();
    let mut i: usize = 0;
    while i < vs.len()
        invariant
            i <= vs.len(),
            all == text::views(vs@),
            out@ == naturals(all.take(i as int)),
        decreases vs.len() - i,
    {
        assert(all.take(i + 1).drop_last() == all.take(i as int));
        assert(all.take(i + 1).last() == vs@[i as int]@);
        match vs[i].as_natural() {
            Some(n) => out.push(
                #[verifier::truncate]
                (n as usize),
            ),
            None => {},
        }
        i = i + 1;
    }
    assert(all.take(i as int) == all);
    out
}

fn holds_id(ids: &[usize], id: usize) -> (r: bool)
    ensures
        r == ids@.contains(id),
{
    let mut i: usize = 0;
    while i < ids.len()
        invariant
            i <= ids.len(),
            forall|k: int| 0 <= k < i ==> ids@[k] != id,
        decreases ids.len() - i,
    {
        if ids[i] == id {
            assert(ids@[i as int] == id);
            return true;
        }
        i = i + 1;
    }
    false
}

/// How many groups stand before the first that has the item.
pub open spec fn group_index(groups: Seq<GroupView>, id: usize) -> nat
    decreases groups.len(),
{
    if groups.len() == 0 || groups[0].ids.contains(id) {
        0
    } else {
        1 + group_index(groups.drop_first(), id)
    }
}

proof fn lemma_group_index(groups: Seq<GroupView>, id: usize, n: int)
    requires
        0 <= n <= groups.len(),
        forall|k: int| 0 <= k < n ==> !(#[trigger] groups[k]).ids.contains(id),
        n < groups.len() ==> groups[n].ids.contains(id),
    ensures
        group_index(groups, id) == n,
    decreases n,
{
    if n > 0 {
        assert(!groups[0].ids.contains(id));
        let rest = groups.drop_first();
        assert forall|k: int| 0 <= k < n - 1 implies !(#[trigger] rest[k]).ids.contains(id) by {
            assert(!groups[k + 1].ids.contains(id));
        }
        lemma_group_index(rest, id, n - 1);
    }
}

fn find_group(groups: &Vec<Group>, id: usize) -> (r: usize)
    ensures
        r == group_index(text::views(groups@), id),
        r <= groups@.len(),
        r < groups@.len() ==> groups@[r as int].ids@.contains(id),
        claimed(text::views(groups@), id) == (r < groups@.len()),
{
    let ghost gs = text::views(groups@);
    let mut i: usize = 0;
    while i < groups.len() && !holds_id(&groups[i].ids, id)
        invariant
            i <= groups.len(),
            gs == text::views(groups@),
            forall|k: int| 0 <= k < i ==> !(#[trigger] gs[k]).ids.contains(id),
        decreases groups.len() - i,
    {
        assert(!gs[i as int].ids.contains(id));
        i = i + 1;
    }
    proof {
        assert(i < gs.len() ==> gs[i as int].ids.contains(id));
        lemma_group_index(gs, id, i as int);
    }
    i
}

fn read_group(
    proposal: &Json,
    eligible: &[usize],
    items: &[Item],
    before: &Vec<Group>,
) -> (r: Option<Group>)
    requires
        forall|k: int| 0 <= k < eligible@.len() ==> #[trigger] eligible@[k] < items@.len(),
    ensures
        text::opt_view(r) == accepted(
            proposal@,
            eligible@,
            text::views(items@),
            text::views(before@),
        ),
{
    let ids: Vec<usize> = match json::member_array(proposal, "ids") {
        Some(vs) => read_naturals(vs),
        None => return None,
    };
    if ids.len() < 2 {
        return None;
    }
    let ghost all = text::views(items@);
    let ghost bs = text::views(before@);
    let mut k: usize = 0;
    while k < ids.len()
        invariant
            k <= ids.len(),
            ids.len() >= 2,
            all == text::views(items@),
            bs == text::views(before@),
            k > 0 ==> ids@[0] < items@.len(),
            forall|j: int| 0 <= j < eligible@.len() ==> #[trigger] eligible@[j] < items@.len(),
            forall|j: int|
                0 <= j < k ==> eligible@.contains(#[trigger] ids@[j]) && !claimed(bs, ids@[j])
                    && agree(all[ids@[j] as int], all[ids@[0] as int]),
            array_is(proposal@, ids@),
        decreases ids.len() - k,
    {
        let id: usize = ids[k];
        let at: usize = find_group(before, id);
        if !holds_id(eligible, id) || at < before.len() {
            assert(!eligible@.contains(ids@[k as int]) || claimed(bs, ids@[k as int]));
            return None;
        }
        proof {
            let j = choose|j: int| 0 <= j < eligible@.len() && eligible@[j] == id;
            assert(eligible@[j] < items@.len());
        }
        let first: usize = ids[0];
        assert(all[id as int] == items@[id as int]@);
        assert(all[first as int] == items@[first as int]@);
        if !path::same(items[id].file_path.as_str(), items[first].file_path.as_str())
            || items[id].side != items[first].side {
            assert(!agree(all[ids@[k as int] as int], all[ids@[0] as int]));
            return None;
        }
        k = k + 1;
    }
    let rationale: String = json::member_text(proposal, "merged_rationale", "");
    if text::chars(rationale.as_str()).len() == 0 {
        return None;
    }
    Some(Group { ids, rationale })
}

/// The natural numbers under `ids` of a proposal are these.
spec fn array_is(proposal: JsonView, ids: Seq<usize>) -> bool {
    json::array_of(json::member(proposal, "ids"@)) matches Some(vs) && naturals(vs) == ids
}

/// Reads the groups in an answer of the model. A proposal that cannot be had is
/// left out.
pub fn read_groups(answer: &Json, eligible: &[usize], items: &[Item]) -> (r: Vec<Group>)
    requires
        forall|k: int| 0 <= k < eligible@.len() ==> #[trigger] eligible@[k] < items@.len(),
    ensures
        text::views(r@) == groups_of(answer@, eligible@, text::views(items@)),
{
    let mut out: Vec<Group> = Vec::new();
    assert(text::views(out@) =~= Seq::<GroupView>::empty());
    let proposals: &Vec<Json> = match json::member_array(answer, "groups") {
        Some(a) => a,
        None => return out,
    };
    let ghost all = text::views(proposals@);
    let mut i: usize = 0;
    while i < proposals.len()
        invariant
            i <= proposals.len(),
            all == text::views(proposals@),
            forall|k: int| 0 <= k < eligible@.len() ==> #[trigger] eligible@[k] < items@.len(),
            text::views(out@) == groups_in(all.take(i as int), eligible@, text::views(items@)),
        decreases proposals.len() - i,
    {
        assert(all.take(i + 1).drop_last() == all.take(i as int));
        assert(all.take(i + 1).last() == proposals@[i as int]@);
        match read_group(&proposals[i], eligible, items, &out) {
            Some(g) => {
                let ghost before = out@;
                out.push(g);
                proof {
                    text::lemma_views_push(before, g);
                }
            },
            None => {},
        }
        i = i + 1;
    }
    assert(all.take(i as int) == all);
    out
}

/// Reads a response of the model: which of the items at the positions
/// `eligible` belong together.
pub fn parse_consolidation_response(raw: &str, eligible: &[usize], items: &[Item]) -> (r: Vec<
    Group,
>)
    requires
        forall|k: int| 0 <= k < eligible@.len() ==> #[trigger] eligible@[k] < items@.len(),
    ensures
        text::views(r@) == response_groups(raw@, eligible@, text::views(items@)),
{
    match json::parse(llm::extract_json(raw).as_str()) {
        Some(v) => read_groups(&v, eligible, items),
        None => {
            let none: Vec<Group> = Vec::new();
            assert(text::views(none@) =~= Seq::<GroupView>::empty());
            none
        },
    }
}


// --- merging -------------------------------------------------------------

/// The items at these positions that are not gone yet, each once, in order.
pub open spec fn taken(items: Seq<ItemView>, gone: Seq<bool>, ids: Seq<usize>) -> Seq<ItemView>
    decreases ids.len(),
{
    if ids.len() == 0 {
        Seq::empty()
    } else {
        let before = taken(items, gone, ids.drop_last());
        if gone[ids.last() as int] || ids.drop_last().contains(ids.last()) {
            before
        } else {
            before.push(items[ids.last() as int])
        }
    }
}

/// The marks with these positions set.
pub open spec fn marked(gone: Seq<bool>, ids: Seq<usize>) -> Seq<bool>
    decreases ids.len(),
{
    if ids.len() == 0 {
        gone
    } else {
        marked(gone, ids.drop_last()).update(ids.last() as int, true)
    }
}

/// The items that are on the side and file of `first`.
pub open spec fn members(items: Seq<ItemView>, first: ItemView) -> Seq<ItemView>
    decreases items.len(),
{
    if items.len() == 0 {
        Seq::empty()
    } else if agree(items.last(), first) {
        members(items.drop_last(), first).push(items.last())
    } else {
        members(items.drop_last(), first)
    }
}

/// The items that are not.
pub open spec fn strays(items: Seq<ItemView>, first: ItemView) -> Seq<ItemView>
    decreases items.len(),
{
    if items.len() == 0 {
        Seq::empty()
    } else if agree(items.last(), first) {
        strays(items.drop_last(), first)
    } else {
        strays(items.drop_last(), first).push(items.last())
    }
}

/// The smallest range that covers two.
pub open spec fn hull(a: InclusiveLineRange, b: InclusiveLineRange) -> InclusiveLineRange {
    InclusiveLineRange {
        start: if b.start < a.start {
            b.start
        } else {
            a.start
        },
        end: if b.end > a.end {
            b.end
        } else {
            a.end
        },
    }
}

/// The smallest range that covers the ranges of all items.
pub open spec fn hull_of(items: Seq<ItemView>) -> InclusiveLineRange
    decreases items.len(),
{
    if items.len() <= 1 {
        items[0].range
    } else {
        hull(hull_of(items.drop_last()), items.last().range)
    }
}

/// The locations of all items, each hunk once.
pub open spec fn locations_of(items: Seq<ItemView>) -> Seq<LocationView>
    decreases items.len(),
{
    if items.len() == 0 {
        Seq::empty()
    } else {
        consolidate::with_locations(locations_of(items.drop_last()), items.last().locations)
    }
}

/// The finding that sums up a group.
pub open spec fn summary_of(
    fs: Seq<FindingView>,
    rationale: Seq<char>,
    provider: LlmProvider,
    model: Seq<char>,
) -> FindingView {
    FindingView {
        level: consolidate::top_level(fs),
        category: Category::LlmAssessed,
        rationale,
        source: SourceView::Llm { provider: llm::provider_name_of(provider), model },
        focus_lines: None,
    }
}

/// The item that a group is merged into: that of the members, on the side and
/// file of the first. Two or more of them are summed up.
pub open spec fn merged_item(
    ms: Seq<ItemView>,
    first: ItemView,
    rationale: Seq<char>,
    provider: LlmProvider,
    model: Seq<char>,
) -> ItemView {
    let fs = consolidate::findings_of(ms);
    ItemView {
        file_path: first.file_path,
        side: first.side,
        range: hull_of(ms),
        locations: locations_of(ms),
        findings: if ms.len() < 2 {
            fs
        } else {
            seq![summary_of(fs, rationale, provider, model)] + fs
        },
    }
}

/// What a group adds: its items that do not agree with the first, as they are,
/// and then the merged item. Nothing where all its items are gone.
pub open spec fn group_output(
    ts: Seq<ItemView>,
    rationale: Seq<char>,
    provider: LlmProvider,
    model: Seq<char>,
) -> Seq<ItemView> {
    if ts.len() == 0 {
        Seq::empty()
    } else {
        strays(ts, ts[0]).push(
            merged_item(members(ts, ts[0]), ts[0], rationale, provider, model),
        )
    }
}

/// Where merging stands: what is done, and which items are gone into it.
#[verifier::ext_equal]
pub struct MergingView {
    pub out: Seq<ItemView>,
    pub gone: Seq<bool>,
}

/// Merging after the items below `n`. An item in no group stays as it is; at
/// the first of its items that is met, a group is merged.
pub open spec fn merging(
    items: Seq<ItemView>,
    groups: Seq<GroupView>,
    provider: LlmProvider,
    model: Seq<char>,
    n: nat,
) -> MergingView
    decreases n,
{
    if n == 0 {
        MergingView { out: Seq::empty(), gone: Seq::new(items.len(), |i: int| false) }
    } else {
        let before = merging(items, groups, provider, model, (n - 1) as nat);
        let g: int = group_index(groups, (n - 1) as usize) as int;
        if g >= groups.len() {
            MergingView { out: before.out.push(items[n - 1]), gone: before.gone }
        } else {
            let ids = groups[g].ids;
            MergingView {
                out: before.out + group_output(
                    taken(items, before.gone, ids),
                    groups[g].rationale,
                    provider,
                    model,
                ),
                gone: marked(before.gone, ids),
            }
        }
    }
}

/// The items with these groups merged.
pub open spec fn merged(
    items: Seq<ItemView>,
    groups: Seq<GroupView>,
    provider: LlmProvider,
    model: Seq<char>,
) -> Seq<ItemView> {
    merging(items, groups, provider, model, items.len()).out
}

/// Every position in the groups is one of an item.
pub open spec fn groups_fit(groups: Seq<GroupView>, n: nat) -> bool {
    forall|g: int, k: int|
        0 <= g < groups.len() && 0 <= k < groups[g].ids.len() ==> #[trigger] groups[g].ids[k] < n
}

/// Takes the items at these positions that are not gone yet, and marks them.
fn take(items: &Vec<Item>, gone: &mut Vec<bool>, ids: &Vec<usize>) -> (r: Vec<Item>)
    requires
        old(gone)@.len() == items@.len(),
        forall|k: int| 0 <= k < ids@.len() ==> #[trigger] ids@[k] < items@.len(),
    ensures
        text::views(r@) == taken(text::views(items@), old(gone)@, ids@),
        final(gone)@ == marked(old(gone)@, ids@),
        final(gone)@.len() == items@.len(),
{
    let ghost all = text::views(items@);
    let ghost start = gone@;
    let mut out: Vec<Item> = Vec::new();
    let mut k: usize = 0;
    assert(text::views(out@) =~= taken(all, start, ids@.take(0)));
    while k < ids.len()
        invariant
            k <= ids.len(),
            all == text::views(items@),
            gone@.len() == items@.len() == start.len(),
            forall|j: int| 0 <= j < ids@.len() ==> #[trigger] ids@[j] < items@.len(),
            text::views(out@) == taken(all, start, ids@.take(k as int)),
            gone@ == marked(start, ids@.take(k as int)),
        decreases ids.len() - k,
    {
        let i: usize = ids[k];
        let ghost earlier = ids@.take(k as int);
        let ghost later = ids@.take(k + 1);
        assert(later.drop_last() == earlier);
        assert(later.last() == i);
        assert(all[i as int] == items@[i as int]@);
        proof {
            assert forall|j: int| 0 <= j < earlier.len() implies #[trigger] earlier[j]
                < start.len() by {
                assert(ids@[j] < items@.len());
            }
            lemma_marked(start, earlier);
        }
        if !gone[i] {
            let item: Item = items[i].clone();
            let ghost before = out@;
            out.push(item);
            proof {
                text::lemma_views_push(before, item);
            }
        }
        gone.set(i, true);
        k = k + 1;
    }
    assert(ids@.take(k as int) == ids@);
    out
}

/// Merges the items of one group.
fn merge_items(ts: Vec<Item>, rationale: &str, config: &LlmConfig) -> (r: Vec<Item>)
    ensures
        text::views(r@) == group_output(
            text::views(ts@),
            rationale@,
            config.provider,
            config.model@,
        ),
{
    let ghost all = text::views(ts@);
    let mut out: Vec<Item> = Vec::new();
    if ts.len() == 0 {
        assert(text::views(out@) =~= Seq::<ItemView>::empty());
        return out;
    }
    let ghost first = all[0];
    let mut findings: Vec<Finding> = Vec::new();
    let mut locations: Vec<Location> = Vec::new();
    let mut count: usize = 0;
    let mut range: InclusiveLineRange = ts[0].range;
    let mut i: usize = 0;
    proof {
        let none = members(all.take(0), first);
        assert(none =~= Seq::<ItemView>::empty());
        assert(text::views(out@) =~= strays(all.take(0), first));
        assert(text::views(findings@) =~= consolidate::findings_of(none));
        assert(text::views(locations@) =~= locations_of(none));
    }
    while i < ts.len()
        invariant
            i <= ts.len(),
            ts.len() > 0,
            all == text::views(ts@),
            first == all[0],
            text::views(out@) == strays(all.take(i as int), first),
            count == members(all.take(i as int), first).len(),
            count <= i,
            i > 0 ==> count > 0,
            count > 0 ==> range == hull_of(members(all.take(i as int), first)),
            count == 0 ==> range == first.range,
            text::views(findings@) == consolidate::findings_of(
                members(all.take(i as int), first),
            ),
            text::views(locations@) == locations_of(members(all.take(i as int), first)),
        decreases ts.len() - i,
    {
        let item: &Item = &ts[i];
        assert(all.take(i + 1).drop_last() == all.take(i as int));
        assert(all.take(i + 1).last() == item@);
        assert(all[0] == ts@[0]@);
        let ghost ms = members(all.take(i as int), first);
        if path::same(item.file_path.as_str(), ts[0].file_path.as_str()) && item.side
            == ts[0].side {
            let ghost more = ms.push(item@);
            assert(more.drop_last() == ms);
            if count == 0 {
                range = item.range;
            } else {
                range =
                InclusiveLineRange {
                    start: if item.range.start < range.start {
                        item.range.start
                    } else {
                        range.start
                    },
                    end: if item.range.end > range.end {
                        item.range.end
                    } else {
                        range.end
                    },
                };
            }
            count = count + 1;
            consolidate::add_locations(&mut locations, &item.locations);
            let mut fs: Vec<Finding> = consolidate::clone_findings(&item.findings);
            let ghost before = text::views(findings@);
            let ghost added = text::views(fs@);
            findings.append(&mut fs);
            assert(text::views(findings@) =~= before + added);
        } else {
            let copy: Item = item.clone();
            let ghost before = out@;
            out.push(copy);
            proof {
                text::lemma_views_push(before, copy);
            }
        }
        i = i + 1;
    }
    assert(all.take(i as int) == all);
    let ghost ms = members(all, first);
    let ghost fs = text::views(findings@);
    if count >= 2 {
        let summary = Finding {
            level: consolidate::highest_level(&findings),
            category: Category::LlmAssessed,
            rationale: rationale.to_string(),
            source: Source::Llm {
                provider: config.provider.name().to_string(),
                model: config.model.clone(),
            },
            focus_lines: None,
        };
        findings.insert(0, summary);
        assert(text::views(findings@) =~= seq![summary@] + fs);
    }
    let item = Item {
        file_path: ts[0].file_path.clone(),
        side: ts[0].side,
        range,
        locations,
        findings,
    };
    assert(item@ =~= merged_item(ms, first, rationale@, config.provider, config.model@));
    let ghost before = out@;
    out.push(item);
    proof {
        text::lemma_views_push(before, item);
    }
    out
}

/// Merges groups of items. An item in no group stays as it is. Where an item of
/// a group is not on the side and file of the first it is left alone.
pub fn apply_groups(items: Vec<Item>, groups: Vec<Group>, config: &LlmConfig) -> (r: Vec<Item>)
    requires
        groups_fit(text::views(groups@), items@.len()),
    ensures
        text::views(r@) == merged(
            text::views(items@),
            text::views(groups@),
            config.provider,
            config.model@,
        ),
{
    let ghost all = text::views(items@);
    let ghost gs = text::views(groups@);
    let mut out: Vec<Item> = Vec::new();
    let mut gone: Vec<bool> = Vec::new();
    let mut i: usize = 0;
    while i < items.len()
        invariant
            i <= items.len(),
            gone@ == Seq::new(i as nat, |k: int| false),
        decreases items.len() - i,
    {
        gone.push(false);
        i = i + 1;
        assert(gone@ =~= Seq::new(i as nat, |k: int| false));
    }
    assert(text::views(out@) =~= Seq::<ItemView>::empty());
    assert(gone@ =~= Seq::new(all.len(), |k: int| false));
    let mut n: usize = 0;
    while n < items.len()
        invariant
            n <= items.len(),
            all == text::views(items@),
            gs == text::views(groups@),
            groups_fit(gs, items@.len()),
            gone@.len() == items@.len(),
            (MergingView { out: text::views(out@), gone: gone@ }) == merging(
                all,
                gs,
                config.provider,
                config.model@,
                n as nat,
            ),
        decreases items.len() - n,
    {
        let g: usize = find_group(&groups, n);
        if g >= groups.len() {
            let item: Item = items[n].clone();
            let ghost before = out@;
            out.push(item);
            proof {
                text::lemma_views_push(before, item);
            }
        } else {
            let group: &Group = &groups[g];
            assert(gs[g as int] == group@);
            assert forall|k: int| 0 <= k < group.ids@.len() implies #[trigger] group.ids@[k]
                < items@.len() by {
                assert(gs[g as int].ids[k] < items@.len());
            }
            let ghost before_gone = gone@;
            let ts: Vec<Item> = take(&items, &mut gone, &group.ids);
            let mut more: Vec<Item> = merge_items(ts, group.rationale.as_str(), config);
            let ghost before = text::views(out@);
            let ghost added = text::views(more@);
            out.append(&mut more);
            assert(text::views(out@) =~= before + added);
        }
        n = n + 1;
    }
    out
}

/// Why no groups can be read from an answer of the model, if there is no JSON
/// document in it.
pub fn answer_fault(raw: &str) -> (r: Option<serde_json::Error>)
    ensures
        r is Some <==> json::json_read(llm::json_part(raw@)) is None,
{
    match json::read(llm::extract_json(raw).as_str()) {
        Err(e) => Some(e),
        Ok(_) => None,
    }
}

/// The items after a response of the model.
pub open spec fn consolidated(
    items: Seq<ItemView>,
    raw: Seq<char>,
    provider: LlmProvider,
    model: Seq<char>,
) -> Seq<ItemView> {
    if eligible_of(items).len() < 2 {
        items
    } else {
        merged(items, response_groups(raw, eligible_of(items), items), provider, model)
    }
}

/// Puts the items together that a model says belong together: `body` is the
/// body of the reply to the request for these items. Items that are skipped
/// are left alone. Where there are fewer than two to ask about, the items stay as
/// they are, whatever the body is. Else `None` where the body is no JSON document.
pub fn consolidate_llm(items: Vec<Item>, body: &str, config: &LlmConfig) -> (r: Option<Vec<Item>>)
    ensures
        eligible_of(text::views(items@)).len() < 2 ==> (r matches Some(out) && text::views(out@)
            == text::views(items@)),
        eligible_of(text::views(items@)).len() >= 2 ==> match (
            r,
            llm::reply_of(config.provider, body@),
        ) {
            (Some(out), Some(raw)) => text::views(out@) == consolidated(
                text::views(items@),
                raw,
                config.provider,
                config.model@,
            ),
            (None, None) => true,
            _ => false,
        },
{
    let ids: Vec<usize> = eligible(&items);
    if ids.len() < 2 {
        return Some(items);
    }
    let raw: String = match llm::reply_text(config.provider, body) {
        Some(raw) => raw,
        None => return None,
    };
    let groups: Vec<Group> = parse_consolidation_response(raw.as_str(), &ids, &items);
    proof {
        lemma_response_fits(raw@, ids@, text::views(items@));
    }
    Some(apply_groups(items, groups, config))
}

proof fn lemma_response_fits(raw: Seq<char>, eligible: Seq<usize>, items: Seq<ItemView>)
    requires
        forall|k: int| 0 <= k < eligible.len() ==> #[trigger] eligible[k] < items.len(),
    ensures
        groups_fit(response_groups(raw, eligible, items), items.len()),
{
    match json::json_read(llm::json_part(raw)) {
        Some(v) => match json::array_of(json::member(v, "groups"@)) {
            Some(a) => lemma_groups_sound(a, eligible, items),
            None => {},
        },
        None => {},
    }
    let gs = response_groups(raw, eligible, items);
    assert forall|g: int, k: int| 0 <= g < gs.len() && 0 <= k < gs[g].ids.len() implies #[trigger]
        gs[g].ids[k] < items.len() by {
        assert(group_is_sound(gs[g], eligible, items));
        assert(eligible.contains(gs[g].ids[k]));
        let j = choose|j: int| 0 <= j < eligible.len() && eligible[j] == gs[g].ids[k];
        assert(eligible[j] < items.len());
    }
}

// --- laws ----------------------------------------------------------------

/// A group has two items or more, all of them asked about and on the same side
/// of the same file, and a reason.
pub open spec fn group_is_sound(g: GroupView, eligible: Seq<usize>, items: Seq<ItemView>) -> bool {
    &&& g.ids.len() >= 2
    &&& g.rationale.len() > 0
    &&& forall|k: int|
        0 <= k < g.ids.len() ==> eligible.contains(#[trigger] g.ids[k]) && agree(
            items[g.ids[k] as int],
            items[g.ids[0] as int],
        )
}

/// No item is in two groups.
pub open spec fn groups_apart(groups: Seq<GroupView>) -> bool {
    forall|g: int, h: int, k: int|
        0 <= g < h < groups.len() && 0 <= k < groups[h].ids.len() ==> !(
        #[trigger] groups[g]).ids.contains(#[trigger] groups[h].ids[k])
}

proof fn lemma_groups_sound(proposals: Seq<JsonView>, eligible: Seq<usize>, items: Seq<ItemView>)
    ensures
        groups_apart(groups_in(proposals, eligible, items)),
        forall|g: int|
            0 <= g < groups_in(proposals, eligible, items).len() ==> group_is_sound(
                #[trigger] groups_in(proposals, eligible, items)[g],
                eligible,
                items,
            ),
    decreases proposals.len(),
{
    if proposals.len() > 0 {
        lemma_groups_sound(proposals.drop_last(), eligible, items);
        let before = groups_in(proposals.drop_last(), eligible, items);
        let after = groups_in(proposals, eligible, items);
        assert forall|g: int| 0 <= g < after.len() implies group_is_sound(
            #[trigger] after[g],
            eligible,
            items,
        ) by {
            if g < before.len() {
                assert(after[g] == before[g]);
            }
        }
        assert forall|g: int, h: int, k: int|
            0 <= g < h < after.len() && 0 <= k < after[h].ids.len() implies !(
        #[trigger] after[g]).ids.contains(#[trigger] after[h].ids[k]) by {
            assert(after[g] == before[g]);
            if h < before.len() {
                assert(after[h] == before[h]);
                assert(!before[g].ids.contains(before[h].ids[k]));
            } else {
                assert(!claimed(before, after[h].ids[k]));
            }
        }
    }
}

/// Whatever a model answers, the groups that are taken from it are sound, and no
/// item is in two of them.
pub proof fn law_groups_are_sound(raw: Seq<char>, eligible: Seq<usize>, items: Seq<ItemView>)
    ensures
        groups_apart(response_groups(raw, eligible, items)),
        forall|g: int|
            0 <= g < response_groups(raw, eligible, items).len() ==> group_is_sound(
                #[trigger] response_groups(raw, eligible, items)[g],
                eligible,
                items,
            ),
{
    match json::json_read(llm::json_part(raw)) {
        Some(v) => match json::array_of(json::member(v, "groups"@)) {
            Some(a) => lemma_groups_sound(a, eligible, items),
            None => {},
        },
        None => {},
    }
}

/// Without groups the items stay as they are.
pub proof fn law_no_groups(items: Seq<ItemView>, provider: LlmProvider, model: Seq<char>)
    ensures
        merged(items, Seq::empty(), provider, model) == items,
{
    lemma_no_groups(items, provider, model, items.len());
    assert(items.take(items.len() as int) == items);
}

proof fn lemma_no_groups(items: Seq<ItemView>, provider: LlmProvider, model: Seq<char>, n: nat)
    requires
        n <= items.len(),
    ensures
        merging(items, Seq::empty(), provider, model, n).out == items.take(n as int),
    decreases n,
{
    if n > 0 {
        lemma_no_groups(items, provider, model, (n - 1) as nat);
        assert(items.take(n as int) =~= items.take(n - 1).push(items[n - 1]));
    } else {
        assert(items.take(0) =~= Seq::<ItemView>::empty());
    }
}

/// An item covers another: it is on the same side of the same file, its lines
/// are at least those, and it has all the findings and hunks.
pub open spec fn covers(o: ItemView, item: ItemView) -> bool {
    &&& agree(o, item)
    &&& consolidate::within(item.range, o.range)
    &&& forall|k: int|
        0 <= k < item.findings.len() ==> o.findings.contains(#[trigger] item.findings[k])
    &&& forall|k: int|
        0 <= k < item.locations.len() ==> !consolidate::new_place(
            o.locations,
            (#[trigger] item.locations[k]).hunk_id,
        )
}

/// Some item covers this one.
pub open spec fn covered(out: Seq<ItemView>, item: ItemView) -> bool {
    exists|i: int| 0 <= i < out.len() && covers(#[trigger] out[i], item)
}

proof fn lemma_covers_itself(item: ItemView)
    ensures
        covers(item, item),
{
    assert forall|k: int| 0 <= k < item.locations.len() implies !consolidate::new_place(
        item.locations,
        (#[trigger] item.locations[k]).hunk_id,
    ) by {
        let l = item.locations[k];
        assert(item.locations[k].hunk_id == l.hunk_id);
    }
}

proof fn lemma_covered_grows(a: Seq<ItemView>, b: Seq<ItemView>, item: ItemView)
    requires
        covered(a, item) || covered(b, item),
    ensures
        covered(a + b, item),
{
    if covered(a, item) {
        let i = choose|i: int| 0 <= i < a.len() && covers(#[trigger] a[i], item);
        assert((a + b)[i] == a[i]);
    } else {
        let i = choose|i: int| 0 <= i < b.len() && covers(#[trigger] b[i], item);
        assert((a + b)[a.len() + i] == b[i]);
    }
}

/// What the members of a group put together covers each of them.
proof fn lemma_members_covered(ms: Seq<ItemView>, k: int)
    requires
        0 <= k < ms.len(),
    ensures
        consolidate::within(ms[k].range, hull_of(ms)),
        forall|j: int|
            0 <= j < ms[k].findings.len() ==> consolidate::findings_of(ms).contains(
                #[trigger] ms[k].findings[j],
            ),
        forall|j: int|
            0 <= j < ms[k].locations.len() ==> !consolidate::new_place(
                locations_of(ms),
                (#[trigger] ms[k].locations[j]).hunk_id,
            ),
    decreases ms.len(),
{
    let shorter = ms.drop_last();
    let fs = consolidate::findings_of(shorter);
    let all = consolidate::findings_of(ms);
    consolidate::lemma_with_locations(locations_of(shorter), ms.last().locations);
    if k < ms.len() - 1 {
        lemma_members_covered(shorter, k);
        assert(ms[k] == shorter[k]);
        assert forall|j: int| 0 <= j < ms[k].findings.len() implies all.contains(
            #[trigger] ms[k].findings[j],
        ) by {
            let f = ms[k].findings[j];
            assert(fs.contains(shorter[k].findings[j]));
            let i = choose|i: int| 0 <= i < fs.len() && fs[i] == f;
            assert(all[i] == f);
        }
    } else {
        assert forall|j: int| 0 <= j < ms[k].findings.len() implies all.contains(
            #[trigger] ms[k].findings[j],
        ) by {
            assert(all[fs.len() + j] == ms[k].findings[j]);
        }
    }
}

proof fn lemma_members_or_strays(ts: Seq<ItemView>, first: ItemView, k: int)
    requires
        0 <= k < ts.len(),
    ensures
        agree(ts[k], first) ==> members(ts, first).contains(ts[k]),
        !agree(ts[k], first) ==> strays(ts, first).contains(ts[k]),
    decreases ts.len(),
{
    if k < ts.len() - 1 {
        let shorter = ts.drop_last();
        lemma_members_or_strays(shorter, first, k);
        assert(ts[k] == shorter[k]);
        if agree(ts[k], first) {
            let ms = members(shorter, first);
            let i = choose|i: int| 0 <= i < ms.len() && ms[i] == ts[k];
            assert(members(ts, first)[i] == ts[k]);
        } else {
            let ss = strays(shorter, first);
            let i = choose|i: int| 0 <= i < ss.len() && ss[i] == ts[k];
            assert(strays(ts, first)[i] == ts[k]);
        }
    } else if agree(ts[k], first) {
        assert(members(ts, first).last() == ts[k]);
    } else {
        assert(strays(ts, first).last() == ts[k]);
    }
}

proof fn lemma_group_covers(
    ts: Seq<ItemView>,
    rationale: Seq<char>,
    provider: LlmProvider,
    model: Seq<char>,
    k: int,
)
    requires
        0 <= k < ts.len(),
    ensures
        covered(group_output(ts, rationale, provider, model), ts[k]),
{
    let first = ts[0];
    let ms = members(ts, first);
    let out = group_output(ts, rationale, provider, model);
    lemma_members_or_strays(ts, first, k);
    if agree(ts[k], first) {
        let i = choose|i: int| 0 <= i < ms.len() && ms[i] == ts[k];
        lemma_members_covered(ms, i);
        let o = merged_item(ms, first, rationale, provider, model);
        let fs = consolidate::findings_of(ms);
        assert forall|j: int| 0 <= j < ts[k].findings.len() implies o.findings.contains(
            #[trigger] ts[k].findings[j],
        ) by {
            let f = ts[k].findings[j];
            assert(fs.contains(ms[i].findings[j]));
            let p = choose|p: int| 0 <= p < fs.len() && fs[p] == f;
            if ms.len() < 2 {
                assert(o.findings[p] == f);
            } else {
                assert(o.findings[p + 1] == f);
            }
        }
        assert forall|j: int| 0 <= j < ts[k].locations.len() implies !consolidate::new_place(
            o.locations,
            (#[trigger] ts[k].locations[j]).hunk_id,
        ) by {
            assert(!consolidate::new_place(locations_of(ms), ms[i].locations[j].hunk_id));
        }
        assert(covers(o, ts[k]));
        assert(out[out.len() - 1] == o);
    } else {
        let ss = strays(ts, first);
        let i = choose|i: int| 0 <= i < ss.len() && ss[i] == ts[k];
        lemma_covers_itself(ts[k]);
        assert(out[i] == ts[k]);
    }
}

proof fn lemma_taken(items: Seq<ItemView>, gone: Seq<bool>, ids: Seq<usize>, k: int)
    requires
        0 <= k < ids.len(),
        !gone[ids[k] as int],
    ensures
        taken(items, gone, ids).contains(items[ids[k] as int]),
    decreases ids.len(),
{
    let shorter = ids.drop_last();
    let id = ids[k];
    let before = taken(items, gone, shorter);
    let after = taken(items, gone, ids);
    if k < ids.len() - 1 {
        assert(shorter[k] == id);
        lemma_taken(items, gone, shorter, k);
        let i = choose|i: int| 0 <= i < before.len() && before[i] == items[id as int];
        assert(after[i] == before[i]);
    } else if shorter.contains(id) {
        let j = choose|j: int| 0 <= j < shorter.len() && shorter[j] == id;
        lemma_taken(items, gone, shorter, j);
    } else {
        assert(after.last() == items[id as int]);
    }
}

proof fn lemma_marked(gone: Seq<bool>, ids: Seq<usize>)
    requires
        forall|k: int| 0 <= k < ids.len() ==> #[trigger] ids[k] < gone.len(),
    ensures
        marked(gone, ids).len() == gone.len(),
        forall|i: int|
            0 <= i < gone.len() && i <= usize::MAX ==> #[trigger] marked(gone, ids)[i] == (gone[i]
                || ids.contains(i as usize)),
    decreases ids.len(),
{
    if ids.len() > 0 {
        let shorter = ids.drop_last();
        assert forall|k: int| 0 <= k < shorter.len() implies #[trigger] shorter[k]
            < gone.len() by {
            assert(ids[k] < gone.len());
        }
        lemma_marked(gone, shorter);
        let out = marked(gone, ids);
        assert forall|i: int| 0 <= i < gone.len() && i <= usize::MAX implies #[trigger] out[i] == (
        gone[i] || ids.contains(i as usize)) by {
            assert(marked(gone, shorter)[i] == (gone[i] || shorter.contains(i as usize)));
            if shorter.contains(i as usize) {
                let j = choose|j: int| 0 <= j < shorter.len() && shorter[j] == i as usize;
                assert(ids[j] == i as usize);
            }
            if ids.contains(i as usize) && i != ids.last() {
                let j = choose|j: int| 0 <= j < ids.len() && ids[j] == i as usize;
                assert(shorter[j] == i as usize);
            }
            if i == ids.last() {
                assert(ids[ids.len() - 1] == i as usize);
            }
        }
    }
}

proof fn lemma_group_index_is(groups: Seq<GroupView>, id: usize)
    ensures
        group_index(groups, id) <= groups.len(),
        group_index(groups, id) < groups.len() ==> groups[group_index(
            groups,
            id,
        ) as int].ids.contains(id),
        group_index(groups, id) == groups.len() ==> !claimed(groups, id),
    decreases groups.len(),
{
    if groups.len() > 0 && !groups[0].ids.contains(id) {
        let rest = groups.drop_first();
        lemma_group_index_is(rest, id);
        if claimed(groups, id) {
            let g = choose|g: int| 0 <= g < groups.len() && (#[trigger] groups[g]).ids.contains(id);
            assert(rest[g - 1].ids.contains(id));
            assert(claimed(rest, id));
        }
    }
}

proof fn lemma_merging_covers(
    items: Seq<ItemView>,
    groups: Seq<GroupView>,
    provider: LlmProvider,
    model: Seq<char>,
    n: nat,
)
    requires
        n <= items.len() <= usize::MAX,
        groups_fit(groups, items.len()),
    ensures
        ({
            let m = merging(items, groups, provider, model, n);
            &&& m.gone.len() == items.len()
            &&& forall|i: int|
                0 <= i < items.len() && (i < n || m.gone[i]) ==> covered(
                    m.out,
                    #[trigger] items[i],
                )
        }),
    decreases n,
{
    let m = merging(items, groups, provider, model, n);
    if n > 0 {
        lemma_merging_covers(items, groups, provider, model, (n - 1) as nat);
        let before = merging(items, groups, provider, model, (n - 1) as nat);
        let id = (n - 1) as usize;
        let g: int = group_index(groups, id) as int;
        lemma_group_index_is(groups, id);
        if g >= groups.len() {
            assert(m.out =~= before.out + seq![items[n - 1]]);
            assert forall|i: int|
                0 <= i < items.len() && (i < n || m.gone[i]) implies covered(
                m.out,
                #[trigger] items[i],
            ) by {
                if i == n - 1 {
                    lemma_covers_itself(items[i]);
                    assert(seq![items[n - 1]][0] == items[i]);
                    assert(covered(seq![items[n - 1]], items[i]));
                } else {
                    assert(before.gone[i] == m.gone[i]);
                    assert(covered(before.out, items[i]));
                }
                lemma_covered_grows(before.out, seq![items[n - 1]], items[i]);
            }
        } else {
            let ids = groups[g].ids;
            assert forall|k: int| 0 <= k < ids.len() implies #[trigger] ids[k]
                < items.len() by {
                assert(groups[g].ids[k] < items.len());
            }
            lemma_marked(before.gone, ids);
            let ts = taken(items, before.gone, ids);
            let added = group_output(ts, groups[g].rationale, provider, model);
            assert forall|i: int|
                0 <= i < items.len() && (i < n || m.gone[i]) implies covered(
                m.out,
                #[trigger] items[i],
            ) by {
                if i < n - 1 || before.gone[i] {
                    assert(covered(before.out, items[i]));
                } else {
                    assert(m.gone[i] == (before.gone[i] || ids.contains(i as usize)));
                    let k = choose|k: int| 0 <= k < ids.len() && ids[k] == i as usize;
                    lemma_taken(items, before.gone, ids, k);
                    let t = choose|t: int| 0 <= t < ts.len() && ts[t] == items[i];
                    lemma_group_covers(ts, groups[g].rationale, provider, model, t);
                    assert(covered(added, items[i]));
                }
                lemma_covered_grows(before.out, added, items[i]);
            }
        }
    }
}

/// Merging loses nothing: for every item there is one on the same side of the
/// same file, on at least its lines, with all its findings and hunks.
pub proof fn law_merging_loses_nothing(
    items: Seq<ItemView>,
    groups: Seq<GroupView>,
    provider: LlmProvider,
    model: Seq<char>,
    i: int,
)
    requires
        0 <= i < items.len() <= usize::MAX,
        groups_fit(groups, items.len()),
    ensures
        covered(merged(items, groups, provider, model), items[i]),
{
    lemma_merging_covers(items, groups, provider, model, items.len());
}

// --- findings are neither lost nor doubled -------------------------------

/// The summary that merging a group adds, where it adds one.
pub open spec fn group_summary(
    ts: Seq<ItemView>,
    rationale: Seq<char>,
    provider: LlmProvider,
    model: Seq<char>,
) -> Seq<FindingView> {
    if ts.len() > 0 && members(ts, ts[0]).len() >= 2 {
        seq![
            summary_of(
                consolidate::findings_of(members(ts, ts[0])),
                rationale,
                provider,
                model,
            ),
        ]
    } else {
        Seq::empty()
    }
}

/// The summaries that merging adds, up to the items below `n`.
pub open spec fn summaries_below(
    items: Seq<ItemView>,
    groups: Seq<GroupView>,
    provider: LlmProvider,
    model: Seq<char>,
    n: nat,
) -> Seq<FindingView>
    decreases n,
{
    if n == 0 {
        Seq::empty()
    } else {
        let before = summaries_below(items, groups, provider, model, (n - 1) as nat);
        let g: int = group_index(groups, (n - 1) as usize) as int;
        if g >= groups.len() {
            before
        } else {
            before + group_summary(
                taken(
                    items,
                    merging(items, groups, provider, model, (n - 1) as nat).gone,
                    groups[g].ids,
                ),
                groups[g].rationale,
                provider,
                model,
            )
        }
    }
}

/// The summaries that merging these groups adds.
pub open spec fn summaries(
    items: Seq<ItemView>,
    groups: Seq<GroupView>,
    provider: LlmProvider,
    model: Seq<char>,
) -> Seq<FindingView> {
    summaries_below(items, groups, provider, model, items.len())
}

/// How often each finding occurs in the items that are done.
spec fn tally(items: Seq<ItemView>, done: Seq<bool>) -> Multiset<FindingView>
    decreases items.len(),
{
    if items.len() == 0 {
        Multiset::empty()
    } else {
        let before = tally(items.drop_last(), done);
        if done[items.len() - 1] {
            before.add(items.last().findings.to_multiset())
        } else {
            before
        }
    }
}

proof fn lemma_tally_same(items: Seq<ItemView>, a: Seq<bool>, b: Seq<bool>)
    requires
        forall|k: int| 0 <= k < items.len() ==> a[k] == b[k],
    ensures
        tally(items, a) == tally(items, b),
    decreases items.len(),
{
    if items.len() > 0 {
        lemma_tally_same(items.drop_last(), a, b);
    }
}

proof fn lemma_tally_update(items: Seq<ItemView>, done: Seq<bool>, i: int)
    requires
        0 <= i < items.len() <= done.len(),
        !done[i],
    ensures
        tally(items, done.update(i, true)) == tally(items, done).add(
            items[i].findings.to_multiset(),
        ),
    decreases items.len(),
{
    let shorter = items.drop_last();
    let more = done.update(i, true);
    if i == items.len() - 1 {
        lemma_tally_same(shorter, more, done);
    } else {
        lemma_tally_update(shorter, done, i);
        assert(shorter[i] == items[i]);
        assert(more[items.len() - 1] == done[items.len() - 1]);
        assert(tally(items, more) =~= tally(items, done).add(items[i].findings.to_multiset()));
    }
}

proof fn lemma_findings_push(items: Seq<ItemView>, item: ItemView)
    ensures
        consolidate::findings_of(items.push(item)) == consolidate::findings_of(items)
            + item.findings,
{
    assert(items.push(item).drop_last() =~= items);
}

proof fn lemma_findings_add(a: Seq<ItemView>, b: Seq<ItemView>)
    ensures
        consolidate::findings_of(a + b) == consolidate::findings_of(a)
            + consolidate::findings_of(b),
    decreases b.len(),
{
    if b.len() == 0 {
        assert(a + b =~= a);
        assert(consolidate::findings_of(a) + consolidate::findings_of(b)
            =~= consolidate::findings_of(a));
    } else {
        lemma_findings_add(a, b.drop_last());
        assert((a + b).drop_last() =~= a + b.drop_last());
        assert(consolidate::findings_of(a + b) =~= consolidate::findings_of(a)
            + consolidate::findings_of(b));
    }
}

proof fn lemma_taken_tally(items: Seq<ItemView>, done: Seq<bool>, ids: Seq<usize>)
    requires
        done.len() == items.len(),
        items.len() <= usize::MAX,
        forall|k: int| 0 <= k < ids.len() ==> #[trigger] ids[k] < items.len(),
    ensures
        tally(items, marked(done, ids)) == tally(items, done).add(
            consolidate::findings_of(taken(items, done, ids)).to_multiset(),
        ),
    decreases ids.len(),
{
    let fs = consolidate::findings_of(taken(items, done, ids));
    if ids.len() == 0 {
        fs.to_multiset_ensures();
        assert(fs.to_multiset() =~= Multiset::empty());
        assert(tally(items, done).add(fs.to_multiset()) =~= tally(items, done));
    } else {
        let shorter = ids.drop_last();
        let id = ids.last();
        assert forall|k: int| 0 <= k < shorter.len() implies #[trigger] shorter[k]
            < items.len() by {
            assert(ids[k] < items.len());
        }
        assert(ids[ids.len() - 1] < items.len());
        lemma_taken_tally(items, done, shorter);
        lemma_marked(done, shorter);
        let before = marked(done, shorter);
        assert(before[id as int] == (done[id as int] || shorter.contains(id)));
        if before[id as int] {
            assert(before.update(id as int, true) =~= before);
        } else {
            lemma_tally_update(items, before, id as int);
            lemma_findings_push(taken(items, done, shorter), items[id as int]);
            vstd::seq_lib::lemma_multiset_commutative(
                consolidate::findings_of(taken(items, done, shorter)),
                items[id as int].findings,
            );
            assert(tally(items, marked(done, ids)) =~= tally(items, done).add(fs.to_multiset()));
        }
    }
}

proof fn lemma_taken_same(items: Seq<ItemView>, a: Seq<bool>, b: Seq<bool>, ids: Seq<usize>)
    requires
        forall|k: int| 0 <= k < ids.len() ==> a[#[trigger] ids[k] as int] == b[ids[k] as int],
    ensures
        taken(items, a, ids) == taken(items, b, ids),
    decreases ids.len(),
{
    if ids.len() > 0 {
        let shorter = ids.drop_last();
        assert forall|k: int| 0 <= k < shorter.len() implies a[#[trigger] shorter[k] as int]
            == b[shorter[k] as int] by {
            assert(a[ids[k] as int] == b[ids[k] as int]);
        }
        lemma_taken_same(items, a, b, shorter);
        assert(a[ids[ids.len() - 1] as int] == b[ids[ids.len() - 1] as int]);
    }
}

/// The members and the strays of a group have its findings between them.
proof fn lemma_split(ts: Seq<ItemView>, first: ItemView)
    ensures
        consolidate::findings_of(ts).to_multiset() == consolidate::findings_of(
            strays(ts, first),
        ).to_multiset().add(consolidate::findings_of(members(ts, first)).to_multiset()),
    decreases ts.len(),
{
    let all = consolidate::findings_of(ts).to_multiset();
    let ss = consolidate::findings_of(strays(ts, first)).to_multiset();
    let ms = consolidate::findings_of(members(ts, first)).to_multiset();
    if ts.len() == 0 {
        consolidate::findings_of(ts).to_multiset_ensures();
        assert(all =~= Multiset::empty());
        assert(all =~= ss.add(ms));
    } else {
        let shorter = ts.drop_last();
        let item = ts.last();
        lemma_split(shorter, first);
        vstd::seq_lib::lemma_multiset_commutative(
            consolidate::findings_of(shorter),
            item.findings,
        );
        if agree(item, first) {
            lemma_findings_push(members(shorter, first), item);
            vstd::seq_lib::lemma_multiset_commutative(
                consolidate::findings_of(members(shorter, first)),
                item.findings,
            );
        } else {
            lemma_findings_push(strays(shorter, first), item);
            vstd::seq_lib::lemma_multiset_commutative(
                consolidate::findings_of(strays(shorter, first)),
                item.findings,
            );
        }
        assert(all =~= ss.add(ms));
    }
}

proof fn lemma_group_findings(
    ts: Seq<ItemView>,
    rationale: Seq<char>,
    provider: LlmProvider,
    model: Seq<char>,
)
    ensures
        consolidate::findings_of(group_output(ts, rationale, provider, model)).to_multiset()
            == consolidate::findings_of(ts).to_multiset().add(
            group_summary(ts, rationale, provider, model).to_multiset(),
        ),
{
    let out = consolidate::findings_of(group_output(ts, rationale, provider, model));
    let fs = consolidate::findings_of(ts);
    let extra = group_summary(ts, rationale, provider, model);
    extra.to_multiset_ensures();
    if ts.len() == 0 {
        assert(out.to_multiset() =~= fs.to_multiset().add(extra.to_multiset()));
    } else {
        let first = ts[0];
        let ms = members(ts, first);
        let ss = consolidate::findings_of(strays(ts, first));
        let o = merged_item(ms, first, rationale, provider, model);
        let kept = consolidate::findings_of(ms);
        lemma_split(ts, first);
        lemma_findings_push(strays(ts, first), o);
        vstd::seq_lib::lemma_multiset_commutative(ss, o.findings);
        if ms.len() >= 2 {
            vstd::seq_lib::lemma_multiset_commutative(extra, kept);
        } else {
            assert(extra.to_multiset() =~= Multiset::empty());
        }
        assert(out.to_multiset() =~= fs.to_multiset().add(extra.to_multiset()));
    }
}

/// Which items are done with, where merging stands.
spec fn done_with(gone: Seq<bool>, n: nat) -> Seq<bool> {
    Seq::new(gone.len(), |i: int| i < n || gone[i])
}

proof fn lemma_merging_keeps(
    items: Seq<ItemView>,
    groups: Seq<GroupView>,
    provider: LlmProvider,
    model: Seq<char>,
    n: nat,
)
    requires
        n <= items.len() <= usize::MAX,
        groups_fit(groups, items.len()),
    ensures
        ({
            let m = merging(items, groups, provider, model, n);
            &&& m.gone.len() == items.len()
            &&& forall|i: int|
                0 <= i < items.len() && #[trigger] m.gone[i] ==> claimed(groups, i as usize)
            &&& forall|i: int|
                0 <= i < n && claimed(groups, i as usize) ==> #[trigger] m.gone[i]
            &&& consolidate::findings_of(m.out).to_multiset() == tally(
                items,
                done_with(m.gone, n),
            ).add(summaries_below(items, groups, provider, model, n).to_multiset())
        }),
    decreases n,
{
    let m = merging(items, groups, provider, model, n);
    let extra = summaries_below(items, groups, provider, model, n);
    let done = done_with(m.gone, n);
    if n == 0 {
        lemma_nothing_done(items, done);
        extra.to_multiset_ensures();
        assert(consolidate::findings_of(m.out).to_multiset() =~= tally(items, done).add(
            extra.to_multiset(),
        ));
    } else {
        lemma_merging_keeps(items, groups, provider, model, (n - 1) as nat);
        let before = merging(items, groups, provider, model, (n - 1) as nat);
        let earlier = summaries_below(items, groups, provider, model, (n - 1) as nat);
        let was = done_with(before.gone, (n - 1) as nat);
        let id = (n - 1) as usize;
        let g: int = group_index(groups, id) as int;
        lemma_group_index_is(groups, id);
        if g >= groups.len() {
            assert(!before.gone[n - 1]);
            assert(!was[n - 1]);
            assert(done =~= was.update(n - 1, true));
            lemma_tally_update(items, was, n - 1);
            lemma_findings_push(before.out, items[n - 1]);
            vstd::seq_lib::lemma_multiset_commutative(
                consolidate::findings_of(before.out),
                items[n - 1].findings,
            );
            assert(consolidate::findings_of(m.out).to_multiset() =~= tally(items, done).add(
                extra.to_multiset(),
            ));
        } else {
            let ids = groups[g].ids;
            let ts = taken(items, before.gone, ids);
            let output = group_output(ts, groups[g].rationale, provider, model);
            let added = group_summary(ts, groups[g].rationale, provider, model);
            assert forall|k: int| 0 <= k < ids.len() implies #[trigger] ids[k] < items.len() by {
                assert(groups[g].ids[k] < items.len());
            }
            assert forall|k: int| 0 <= k < ids.len() implies claimed(
                groups,
                #[trigger] ids[k],
            ) by {
                assert(groups[g].ids.contains(ids[k]));
            }
            lemma_marked(before.gone, ids);
            lemma_marked(was, ids);
            assert forall|i: int| 0 <= i < items.len() && #[trigger] m.gone[i] implies claimed(
                groups,
                i as usize,
            ) by {
                if !before.gone[i] {
                    let k = choose|k: int| 0 <= k < ids.len() && ids[k] == i as usize;
                    assert(claimed(groups, ids[k]));
                }
            }
            assert forall|i: int| 0 <= i < n && claimed(groups, i as usize) implies #[trigger]
                m.gone[i] by {
                assert(m.gone[i] == (before.gone[i] || ids.contains(i as usize)));
                if i < n - 1 {
                    assert(before.gone[i]);
                }
            }
            assert forall|k: int| 0 <= k < ids.len() implies before.gone[#[trigger] ids[k] as int]
                == was[ids[k] as int] by {
                let i = ids[k] as int;
                assert(claimed(groups, ids[k]));
                if i < n - 1 {
                    assert(before.gone[i]);
                }
            }
            lemma_taken_same(items, before.gone, was, ids);
            lemma_taken_tally(items, was, ids);
            assert(done =~= marked(was, ids)) by {
                assert forall|i: int| 0 <= i < items.len() implies done[i] == marked(was, ids)[i] by {
                    assert(m.gone[i] == (before.gone[i] || ids.contains(i as usize)));
                    assert(marked(was, ids)[i] == (was[i] || ids.contains(i as usize)));
                }
            }
            lemma_group_findings(ts, groups[g].rationale, provider, model);
            lemma_findings_add(before.out, output);
            vstd::seq_lib::lemma_multiset_commutative(
                consolidate::findings_of(before.out),
                consolidate::findings_of(output),
            );
            vstd::seq_lib::lemma_multiset_commutative(earlier, added);
            assert(consolidate::findings_of(m.out).to_multiset() =~= tally(items, done).add(
                extra.to_multiset(),
            ));
        }
    }
}

proof fn lemma_nothing_done(items: Seq<ItemView>, done: Seq<bool>)
    requires
        forall|k: int| 0 <= k < items.len() ==> !done[k],
    ensures
        tally(items, done) == Multiset::<FindingView>::empty(),
    decreases items.len(),
{
    if items.len() > 0 {
        lemma_nothing_done(items.drop_last(), done);
    }
}

proof fn lemma_all_done(items: Seq<ItemView>, done: Seq<bool>)
    requires
        forall|k: int| 0 <= k < items.len() ==> done[k],
    ensures
        tally(items, done) == consolidate::findings_of(items).to_multiset(),
    decreases items.len(),
{
    if items.len() > 0 {
        let shorter = items.drop_last();
        lemma_all_done(shorter, done);
        vstd::seq_lib::lemma_multiset_commutative(
            consolidate::findings_of(shorter),
            items.last().findings,
        );
        assert(done[items.len() - 1]);
    } else {
        consolidate::findings_of(items).to_multiset_ensures();
        assert(consolidate::findings_of(items).to_multiset() =~= Multiset::<FindingView>::empty());
    }
}

/// A finding of the model that sums up a group.
pub open spec fn is_summary(f: FindingView, provider: LlmProvider, model: Seq<char>) -> bool {
    &&& f.category == Category::LlmAssessed
    &&& f.source == SourceView::Llm { provider: llm::provider_name_of(provider), model }
    &&& f.focus_lines is None
}

proof fn lemma_summaries(
    items: Seq<ItemView>,
    groups: Seq<GroupView>,
    provider: LlmProvider,
    model: Seq<char>,
    n: nat,
)
    ensures
        forall|k: int|
            0 <= k < summaries_below(items, groups, provider, model, n).len() ==> is_summary(
                #[trigger] summaries_below(items, groups, provider, model, n)[k],
                provider,
                model,
            ),
    decreases n,
{
    if n > 0 {
        lemma_summaries(items, groups, provider, model, (n - 1) as nat);
        let before = summaries_below(items, groups, provider, model, (n - 1) as nat);
        let after = summaries_below(items, groups, provider, model, n);
        assert forall|k: int| 0 <= k < after.len() implies is_summary(
            #[trigger] after[k],
            provider,
            model,
        ) by {
            if k < before.len() {
                assert(after[k] == before[k]);
            }
        }
    }
}

/// Merging neither loses nor doubles a finding: but for the summaries, which are
/// the model's, the findings afterwards are those before, in another order.
pub proof fn law_merging_keeps_findings(
    items: Seq<ItemView>,
    groups: Seq<GroupView>,
    provider: LlmProvider,
    model: Seq<char>,
)
    requires
        items.len() <= usize::MAX,
        groups_fit(groups, items.len()),
    ensures
        consolidate::findings_of(merged(items, groups, provider, model)).to_multiset()
            == consolidate::findings_of(items).to_multiset().add(
            summaries(items, groups, provider, model).to_multiset(),
        ),
        forall|k: int|
            0 <= k < summaries(items, groups, provider, model).len() ==> is_summary(
                #[trigger] summaries(items, groups, provider, model)[k],
                provider,
                model,
            ),
{
    let n = items.len();
    lemma_merging_keeps(items, groups, provider, model, n);
    lemma_summaries(items, groups, provider, model, n);
    lemma_all_done(items, done_with(merging(items, groups, provider, model, n).gone, n));
}

// --- what is skipped is left alone ---------------------------------------

proof fn lemma_eligible_is_not_skipped(items: Seq<ItemView>, n: nat, k: int)
    requires
        n <= items.len() <= usize::MAX,
        0 <= k < eligible_below(items, n).len(),
    ensures
        consolidate::top_level(items[eligible_below(items, n)[k] as int].findings) != Level::Skip,
    decreases n,
{
    let shorter = eligible_below(items, (n - 1) as nat);
    if k < shorter.len() {
        lemma_eligible_is_not_skipped(items, (n - 1) as nat, k);
        assert(eligible_below(items, n)[k] == shorter[k]);
    }
}

proof fn lemma_unclaimed_stays(
    items: Seq<ItemView>,
    groups: Seq<GroupView>,
    provider: LlmProvider,
    model: Seq<char>,
    n: nat,
    i: int,
)
    requires
        0 <= i < n <= items.len() <= usize::MAX,
        !claimed(groups, i as usize),
    ensures
        merging(items, groups, provider, model, n).out.contains(items[i]),
    decreases n,
{
    let before = merging(items, groups, provider, model, (n - 1) as nat).out;
    let out = merging(items, groups, provider, model, n).out;
    if i < n - 1 {
        lemma_unclaimed_stays(items, groups, provider, model, (n - 1) as nat, i);
        let k = choose|k: int| 0 <= k < before.len() && before[k] == items[i];
        assert(out[k] == items[i]);
    } else {
        let g: int = group_index(groups, i as usize) as int;
        lemma_group_index_is(groups, i as usize);
        assert(g >= groups.len()) by {
            if g < groups.len() {
                assert(groups[g].ids.contains(i as usize));
            }
        }
        assert(out[before.len() as int] == items[i]);
    }
}

/// Whatever a model answers, an item that may be skipped stays as it is.
pub proof fn law_skipped_items_stay(
    items: Seq<ItemView>,
    raw: Seq<char>,
    provider: LlmProvider,
    model: Seq<char>,
    i: int,
)
    requires
        0 <= i < items.len() <= usize::MAX,
        consolidate::top_level(items[i].findings) == Level::Skip,
    ensures
        consolidated(items, raw, provider, model).contains(items[i]),
{
    let eligible = eligible_of(items);
    let groups = response_groups(raw, eligible, items);
    law_groups_are_sound(raw, eligible, items);
    if eligible.len() < 2 {
        assert(items.contains(items[i]));
    } else {
        assert(!claimed(groups, i as usize)) by {
            if claimed(groups, i as usize) {
                let g = choose|g: int|
                    0 <= g < groups.len() && (#[trigger] groups[g]).ids.contains(i as usize);
                assert(group_is_sound(groups[g], eligible, items));
                let k = choose|k: int|
                    0 <= k < groups[g].ids.len() && groups[g].ids[k] == i as usize;
                assert(eligible.contains(groups[g].ids[k]));
                let j = choose|j: int| 0 <= j < eligible.len() && eligible[j] == i as usize;
                lemma_eligible_is_not_skipped(items, items.len(), j);
            }
        }
        lemma_unclaimed_stays(items, groups, provider, model, items.len(), i);
    }
}

// --- a group becomes one item --------------------------------------------

proof fn lemma_eligible_all(items: Seq<ItemView>, n: nat)
    requires
        n <= items.len() <= usize::MAX,
    ensures
        forall|i: int|
            0 <= i < n ==> (#[trigger] eligible_below(items, n).contains(i as usize)
                <==> consolidate::top_level(items[i].findings) != Level::Skip),
        forall|j: int, k: int|
            0 <= j < k < eligible_below(items, n).len() ==> #[trigger] eligible_below(items, n)[j]
                < #[trigger] eligible_below(items, n)[k],
    decreases n,
{
    if n > 0 {
        let rest = (n - 1) as nat;
        let before = eligible_below(items, rest);
        let after = eligible_below(items, n);
        lemma_eligible_all(items, rest);
        lemma_eligible_below(items, rest);
        assert forall|i: int| 0 <= i < n implies (#[trigger] after.contains(i as usize)
            <==> consolidate::top_level(items[i].findings) != Level::Skip) by {
            if i < rest {
                assert(before.contains(i as usize) <==> consolidate::top_level(items[i].findings)
                    != Level::Skip);
                if before.contains(i as usize) {
                    let k = before.index_of(i as usize);
                    assert(after[k] == i as usize);
                }
                if after.contains(i as usize) {
                    let k = after.index_of(i as usize);
                    assert(before[k] == i as usize);
                }
            } else {
                if consolidate::top_level(items[i].findings) != Level::Skip {
                    assert(after[before.len() as int] == i as usize);
                } else if before.contains(i as usize) {
                    let k = before.index_of(i as usize);
                    assert(before[k] < rest);
                }
            }
        }
        assert forall|j: int, k: int| 0 <= j < k < after.len() implies #[trigger] after[j]
            < #[trigger] after[k] by {
            assert(after[j] == before[j]);
            if k < before.len() {
                assert(after[k] == before[k]);
            } else {
                assert(before[j] < rest);
            }
        }
    }
}

/// A model is asked about every item that is not skipped, and about no other, in
/// order.
pub proof fn law_who_is_asked_about(items: Seq<ItemView>)
    requires
        items.len() <= usize::MAX,
    ensures
        forall|i: int|
            0 <= i < items.len() ==> (#[trigger] eligible_of(items).contains(i as usize) <==> {
                ||| items[i].findings.len() == 0
                ||| exists|k: int|
                    0 <= k < items[i].findings.len() && (#[trigger] items[i].findings[k]).level
                        != Level::Skip
            }),
        forall|j: int|
            0 <= j < eligible_of(items).len() ==> #[trigger] eligible_of(items)[j] < items.len(),
        forall|j: int, k: int|
            0 <= j < k < eligible_of(items).len() ==> #[trigger] eligible_of(items)[j]
                < #[trigger] eligible_of(items)[k],
{
    lemma_eligible_all(items, items.len());
    lemma_eligible_below(items, items.len());
    assert forall|i: int| 0 <= i < items.len() implies (#[trigger] eligible_of(items).contains(
        i as usize,
    ) <==> {
        ||| items[i].findings.len() == 0
        ||| exists|k: int|
            0 <= k < items[i].findings.len() && (#[trigger] items[i].findings[k]).level
                != Level::Skip
    }) by {
        consolidate::law_top_level(items[i].findings);
        assert(eligible_below(items, items.len()).contains(i as usize)
            <==> consolidate::top_level(items[i].findings) != Level::Skip);
    }
}

/// A proposal is taken, beside those before it, exactly where it lists two items
/// or more that were asked about, none of which is in a group yet, all on the same
/// side of the same file, and gives a reason. A taken group is what the proposal
/// says.
pub proof fn law_good_groups_are_taken(
    proposals: Seq<JsonView>,
    p: JsonView,
    eligible: Seq<usize>,
    items: Seq<ItemView>,
    values: Seq<JsonView>,
    rationale: Seq<char>,
)
    requires
        json::member(p, "ids"@) == JsonView::Array(values),
        json::member(p, "merged_rationale"@) == JsonView::Text(rationale),
    ensures
        ({
            let before = groups_in(proposals, eligible, items);
            let ids = naturals(values);
            groups_in(proposals.push(p), eligible, items) == if {
                &&& ids.len() >= 2
                &&& rationale.len() > 0
                &&& forall|k: int| 0 <= k < ids.len() ==> eligible.contains(#[trigger] ids[k])
                &&& forall|k: int, g: int|
                    0 <= k < ids.len() && 0 <= g < before.len() ==> !(
                    #[trigger] before[g]).ids.contains(#[trigger] ids[k])
                &&& forall|k: int|
                    0 <= k < ids.len() ==> path::parts_of(
                        items[#[trigger] ids[k] as int].file_path,
                    ) == path::parts_of(items[ids[0] as int].file_path) && items[ids[k] as int].side
                        == items[ids[0] as int].side
            } {
                before.push(GroupView { ids, rationale })
            } else {
                before
            }
        }),
{
    let before = groups_in(proposals, eligible, items);
    let ids = naturals(values);
    assert(proposals.push(p).drop_last() =~= proposals);
    assert(proposals.push(p).last() == p);
    if accepted(p, eligible, items, before) is Some {
        assert forall|k: int, g: int|
            0 <= k < ids.len() && 0 <= g < before.len() implies !(
        #[trigger] before[g]).ids.contains(#[trigger] ids[k]) by {
            assert(!claimed(before, ids[k]));
        }
        assert forall|k: int| 0 <= k < ids.len() implies path::parts_of(
            items[#[trigger] ids[k] as int].file_path,
        ) == path::parts_of(items[ids[0] as int].file_path) && items[ids[k] as int].side
            == items[ids[0] as int].side by {
            assert(agree(items[ids[k] as int], items[ids[0] as int]));
        }
    }
}

/// The numbers in a list are read in order; what is no number is passed over.
pub proof fn law_numbers_are_read(values: Seq<JsonView>, v: JsonView)
    ensures
        naturals(Seq::<JsonView>::empty()) == Seq::<usize>::empty(),
        v matches JsonView::Natural(n) ==> naturals(values.push(v)) == naturals(values).push(
            n as usize,
        ),
        !(v is Natural) ==> naturals(values.push(v)) == naturals(values),
{
    assert(values.push(v).drop_last() =~= values);
}

/// What the items of a group become: one item that covers each of them, on no
/// more lines than from the first of theirs to the last. Where they are two or
/// more it begins with the reason that the model gave, at the highest of their
/// levels.
pub open spec fn sums_up(
    o: ItemView,
    g: GroupView,
    items: Seq<ItemView>,
    provider: LlmProvider,
    model: Seq<char>,
) -> bool {
    &&& forall|k: int| 0 <= k < g.ids.len() ==> covers(o, items[#[trigger] g.ids[k] as int])
    &&& exists|k: int|
        0 <= k < g.ids.len() && items[#[trigger] g.ids[k] as int].range.start == o.range.start
    &&& exists|k: int|
        0 <= k < g.ids.len() && items[#[trigger] g.ids[k] as int].range.end == o.range.end
    &&& (exists|j: int, k: int|
        0 <= j < k < g.ids.len() && #[trigger] g.ids[j] != #[trigger] g.ids[k]) ==> {
        &&& o.findings.len() > 0
        &&& o.findings[0].rationale == g.rationale
        &&& is_summary(o.findings[0], provider, model)
        &&& o.findings[0].level == consolidate::top_level(o.findings.drop_first())
    }
}

proof fn lemma_taken_from(items: Seq<ItemView>, gone: Seq<bool>, ids: Seq<usize>)
    requires
        ids.len() > 0,
        forall|k: int| 0 <= k < ids.len() ==> !gone[#[trigger] ids[k] as int],
    ensures
        ({
            let ts = taken(items, gone, ids);
            &&& ts.len() > 0
            &&& ts[0] == items[ids[0] as int]
            &&& forall|t: int|
                0 <= t < ts.len() ==> exists|k: int|
                    0 <= k < ids.len() && #[trigger] ts[t] == items[#[trigger] ids[k] as int]
            &&& (exists|j: int, k: int|
                0 <= j < k < ids.len() && #[trigger] ids[j] != #[trigger] ids[k]) ==> ts.len() >= 2
        }),
    decreases ids.len(),
{
    let ts = taken(items, gone, ids);
    let rest = ids.drop_last();
    let last = ids.len() - 1;
    assert(!gone[ids[last] as int]);
    if ids.len() == 1 {
        assert(taken(items, gone, rest) =~= Seq::<ItemView>::empty());
        assert(ts =~= seq![items[ids[0] as int]]);
        assert forall|t: int| 0 <= t < ts.len() implies exists|k: int|
            0 <= k < ids.len() && #[trigger] ts[t] == items[#[trigger] ids[k] as int] by {
            assert(ts[t] == items[ids[0] as int]);
        }
    } else {
        let before = taken(items, gone, rest);
        assert forall|k: int| 0 <= k < rest.len() implies !gone[#[trigger] rest[k] as int] by {
            assert(!gone[ids[k] as int]);
        }
        lemma_taken_from(items, gone, rest);
        assert(rest[0] == ids[0]);
        assert forall|t: int| 0 <= t < ts.len() implies exists|k: int|
            0 <= k < ids.len() && #[trigger] ts[t] == items[#[trigger] ids[k] as int] by {
            if t < before.len() {
                assert(ts[t] == before[t]);
                let k = choose|k: int|
                    0 <= k < rest.len() && before[t] == items[#[trigger] rest[k] as int];
                assert(ids[k] == rest[k]);
            } else {
                assert(ts[t] == items[ids[last] as int]);
            }
        }
        if exists|j: int, k: int|
            0 <= j < k < ids.len() && #[trigger] ids[j] != #[trigger] ids[k] {
            let (j, k) = choose|j: int, k: int|
                0 <= j < k < ids.len() && #[trigger] ids[j] != #[trigger] ids[k];
            if rest.contains(ids.last()) {
                assert(rest[j] == ids[j]);
                if k < last {
                    assert(rest[k] == ids[k]);
                } else {
                    let m = rest.index_of(ids.last());
                    assert(rest[m] == ids[k]);
                    assert(rest[j] != rest[m]);
                    if j < m {
                        assert(ids[j] != ids[m]);
                        assert(exists|a: int, b: int|
                            0 <= a < b < rest.len() && #[trigger] rest[a] != #[trigger] rest[b]);
                    } else {
                        assert(exists|a: int, b: int|
                            0 <= a < b < rest.len() && #[trigger] rest[a] != #[trigger] rest[b]);
                    }
                }
            }
        }
    }
}

proof fn lemma_all_members(ts: Seq<ItemView>, first: ItemView)
    requires
        forall|t: int| 0 <= t < ts.len() ==> agree(#[trigger] ts[t], first),
    ensures
        members(ts, first) == ts,
        strays(ts, first) == Seq::<ItemView>::empty(),
    decreases ts.len(),
{
    if ts.len() > 0 {
        let rest = ts.drop_last();
        assert forall|t: int| 0 <= t < rest.len() implies agree(#[trigger] rest[t], first) by {
            assert(agree(ts[t], first));
        }
        lemma_all_members(rest, first);
        assert(agree(ts[ts.len() - 1], first));
        assert(rest.push(ts.last()) =~= ts);
    } else {
        assert(members(ts, first) =~= ts);
    }
}

proof fn lemma_hull(ms: Seq<ItemView>)
    requires
        ms.len() > 0,
    ensures
        exists|k: int| 0 <= k < ms.len() && (#[trigger] ms[k]).range.start == hull_of(ms).start,
        exists|k: int| 0 <= k < ms.len() && (#[trigger] ms[k]).range.end == hull_of(ms).end,
    decreases ms.len(),
{
    if ms.len() == 1 {
        assert(ms[0].range.start == hull_of(ms).start);
    } else {
        let rest = ms.drop_last();
        lemma_hull(rest);
        let a = choose|k: int|
            0 <= k < rest.len() && (#[trigger] rest[k]).range.start == hull_of(rest).start;
        let b = choose|k: int|
            0 <= k < rest.len() && (#[trigger] rest[k]).range.end == hull_of(rest).end;
        assert(ms[a] == rest[a] && ms[b] == rest[b]);
        assert(ms[ms.len() - 1] == ms.last());
    }
}

proof fn lemma_group_sums_up(
    items: Seq<ItemView>,
    gone: Seq<bool>,
    g: GroupView,
    provider: LlmProvider,
    model: Seq<char>,
)
    requires
        g.ids.len() > 0,
        forall|k: int| 0 <= k < g.ids.len() ==> !gone[#[trigger] g.ids[k] as int],
        forall|k: int|
            0 <= k < g.ids.len() ==> agree(
                items[#[trigger] g.ids[k] as int],
                items[g.ids[0] as int],
            ),
    ensures
        ({
            let out = group_output(taken(items, gone, g.ids), g.rationale, provider, model);
            out.len() > 0 && sums_up(out.last(), g, items, provider, model)
        }),
{
    let ts = taken(items, gone, g.ids);
    let first = ts[0];
    lemma_taken_from(items, gone, g.ids);
    assert forall|t: int| 0 <= t < ts.len() implies agree(#[trigger] ts[t], first) by {
        let k = choose|k: int| 0 <= k < g.ids.len() && ts[t] == items[#[trigger] g.ids[k] as int];
        assert(agree(items[g.ids[k] as int], items[g.ids[0] as int]));
    }
    lemma_all_members(ts, first);
    let o = merged_item(ts, first, g.rationale, provider, model);
    let fs = consolidate::findings_of(ts);
    let out = group_output(ts, g.rationale, provider, model);
    assert(out =~= seq![o]);
    assert forall|k: int| 0 <= k < g.ids.len() implies covers(
        o,
        items[#[trigger] g.ids[k] as int],
    ) by {
        lemma_taken(items, gone, g.ids, k);
        let t = choose|t: int| 0 <= t < ts.len() && ts[t] == items[g.ids[k] as int];
        lemma_group_covers(ts, g.rationale, provider, model, t);
        let i = choose|i: int| 0 <= i < out.len() && covers(#[trigger] out[i], ts[t]);
        assert(out[i] == o);
    }
    lemma_hull(ts);
    let a = choose|k: int|
        0 <= k < ts.len() && (#[trigger] ts[k]).range.start == hull_of(ts).start;
    let ka = choose|k: int| 0 <= k < g.ids.len() && ts[a] == items[#[trigger] g.ids[k] as int];
    assert(items[g.ids[ka] as int].range.start == o.range.start);
    let b = choose|k: int| 0 <= k < ts.len() && (#[trigger] ts[k]).range.end == hull_of(ts).end;
    let kb = choose|k: int| 0 <= k < g.ids.len() && ts[b] == items[#[trigger] g.ids[k] as int];
    assert(items[g.ids[kb] as int].range.end == o.range.end);
    if ts.len() >= 2 {
        assert(o.findings.drop_first() =~= fs);
    }
}

proof fn lemma_one_group(
    items: Seq<ItemView>,
    groups: Seq<GroupView>,
    g: int,
    provider: LlmProvider,
    model: Seq<char>,
    n: nat,
)
    requires
        n <= items.len() <= usize::MAX,
        groups_fit(groups, items.len()),
        groups_apart(groups),
        0 <= g < groups.len(),
        groups[g].ids.len() > 0,
        forall|k: int|
            0 <= k < groups[g].ids.len() ==> agree(
                items[#[trigger] groups[g].ids[k] as int],
                items[groups[g].ids[0] as int],
            ),
    ensures
        ({
            let m = merging(items, groups, provider, model, n);
            &&& m.gone.len() == items.len()
            &&& {
                ||| exists|i: int|
                    0 <= i < m.out.len() && sums_up(
                        #[trigger] m.out[i],
                        groups[g],
                        items,
                        provider,
                        model,
                    )
                ||| forall|k: int|
                    0 <= k < groups[g].ids.len() ==> n <= #[trigger] groups[g].ids[k]
                        && !m.gone[groups[g].ids[k] as int]
            }
        }),
    decreases n,
{
    let m = merging(items, groups, provider, model, n);
    let ours = groups[g].ids;
    if n > 0 {
        let before = merging(items, groups, provider, model, (n - 1) as nat);
        lemma_one_group(items, groups, g, provider, model, (n - 1) as nat);
        let id = (n - 1) as usize;
        let h: int = group_index(groups, id) as int;
        lemma_group_index_is(groups, id);
        if exists|i: int|
            0 <= i < before.out.len() && sums_up(
                #[trigger] before.out[i],
                groups[g],
                items,
                provider,
                model,
            ) {
            let i = choose|i: int|
                0 <= i < before.out.len() && sums_up(
                    #[trigger] before.out[i],
                    groups[g],
                    items,
                    provider,
                    model,
                );
            assert(m.out[i] == before.out[i]);
            if h < groups.len() {
                assert forall|k: int| 0 <= k < groups[h].ids.len() implies #[trigger]
                    groups[h].ids[k] < items.len() by {}
                lemma_marked(before.gone, groups[h].ids);
            }
        } else if h >= groups.len() {
            assert forall|k: int| 0 <= k < ours.len() implies n <= #[trigger] groups[g].ids[k]
                && !m.gone[groups[g].ids[k] as int] by {
                assert(n - 1 <= groups[g].ids[k]);
                if groups[g].ids[k] == id {
                    assert(groups[g].ids.contains(id));
                    assert(claimed(groups, id));
                }
            }
        } else if h == g {
            assert forall|k: int| 0 <= k < ours.len() implies !before.gone[
            #[trigger] groups[g].ids[k] as int] by {
                assert(n - 1 <= groups[g].ids[k]);
            }
            lemma_marked(before.gone, groups[h].ids);
            lemma_group_sums_up(items, before.gone, groups[g], provider, model);
            assert(sums_up(m.out[m.out.len() - 1], groups[g], items, provider, model));
        } else {
            let theirs = groups[h].ids;
            lemma_marked(before.gone, theirs);
            assert forall|k: int| 0 <= k < ours.len() implies n <= #[trigger] groups[g].ids[k]
                && !m.gone[groups[g].ids[k] as int] by {
                let x = groups[g].ids[k];
                assert(n - 1 <= x && !before.gone[x as int]);
                if theirs.contains(x) {
                    let j = theirs.index_of(x);
                    if h < g {
                        assert(!groups[h].ids.contains(groups[g].ids[k]));
                    } else {
                        assert(groups[g].ids.contains(x));
                        assert(groups[h].ids[j] == x);
                        assert(!groups[g].ids.contains(groups[h].ids[j]));
                    }
                }
                assert(m.gone[x as int] == (before.gone[x as int] || theirs.contains(x)));
            }
        }
    } else {
        assert forall|k: int| 0 <= k < ours.len() implies n <= #[trigger] groups[g].ids[k]
            && !m.gone[groups[g].ids[k] as int] by {
            assert(groups[g].ids[k] < items.len());
        }
    }
}

/// Every group that the model proposes and that is taken becomes one item.
pub proof fn law_a_group_becomes_one_item(
    items: Seq<ItemView>,
    raw: Seq<char>,
    provider: LlmProvider,
    model: Seq<char>,
    g: int,
)
    requires
        items.len() <= usize::MAX,
        eligible_of(items).len() >= 2,
        0 <= g < response_groups(raw, eligible_of(items), items).len(),
    ensures
        exists|i: int|
            0 <= i < consolidated(items, raw, provider, model).len() && sums_up(
                #[trigger] consolidated(items, raw, provider, model)[i],
                response_groups(raw, eligible_of(items), items)[g],
                items,
                provider,
                model,
            ),
{
    let eligible = eligible_of(items);
    let groups = response_groups(raw, eligible, items);
    let n = items.len();
    law_groups_are_sound(raw, eligible, items);
    law_who_is_asked_about(items);
    assert forall|h: int, k: int|
        0 <= h < groups.len() && 0 <= k < groups[h].ids.len() implies #[trigger] groups[h].ids[k]
        < n by {
        assert(group_is_sound(groups[h], eligible, items));
        assert(eligible.contains(groups[h].ids[k]));
        let j = eligible.index_of(groups[h].ids[k]);
        assert(eligible_of(items)[j] < items.len());
    }
    assert(group_is_sound(groups[g], eligible, items));
    lemma_one_group(items, groups, g, provider, model, n);
    assert(groups[g].ids[0] < n);
    let m = merging(items, groups, provider, model, n);
    let out = consolidated(items, raw, provider, model);
    assert(out == m.out);
    let i = choose|i: int|
        0 <= i < m.out.len() && sums_up(#[trigger] m.out[i], groups[g], items, provider, model);
    assert(sums_up(out[i], groups[g], items, provider, model));
}

// --- what the model is told ----------------------------------------------

/// The prompt tells of an item: its number, file, lines and side, and the
/// beginning of every rationale.
pub open spec fn prompt_tells(prompt: Seq<char>, i: usize, item: ItemView) -> bool {
    &&& text::contains(
        prompt,
        "["@ + text::dec(i as nat) + "] "@ + item.file_path + ":"@ + text::dec(
            item.range.start as nat,
        ) + "-"@ + text::dec(item.range.end as nat) + (if item.side == Side::New {
            " [NEW]:\n"@
        } else {
            " [OLD]:\n"@
        }),
    )
    &&& forall|k: int|
        0 <= k < item.findings.len() ==> {
            let r = (#[trigger] item.findings[k]).rationale;
            text::contains(
                prompt,
                "    - "@ + (if r.len() > 240 {
                    r.take(240)
                } else {
                    r
                }) + "\n"@,
            )
        }
}

proof fn lemma_rationale_line(fs: Seq<FindingView>, k: int)
    requires
        0 <= k < fs.len(),
    ensures
        text::contains(
            rationale_lines(fs),
            "    - "@ + shortened(fs[k].rationale, 240) + "\n"@,
        ),
    decreases fs.len(),
{
    let p = "    - "@ + shortened(fs[k].rationale, 240) + "\n"@;
    let rest = rationale_lines(fs.drop_last());
    let last = "    - "@ + shortened(fs.last().rationale, 240) + "\n"@;
    assert(rationale_lines(fs) =~= rest + last);
    if k < fs.len() - 1 {
        lemma_rationale_line(fs.drop_last(), k);
    } else {
        text::lemma_contains_itself(p);
    }
    text::lemma_contains_add(rest, last, p);
}

proof fn lemma_tells_more(a: Seq<char>, b: Seq<char>, i: usize, item: ItemView)
    ensures
        prompt_tells(a, i, item) ==> prompt_tells(a + b, i, item),
        prompt_tells(b, i, item) ==> prompt_tells(a + b, i, item),
{
    text::lemma_contains_add(
        a,
        b,
        "["@ + text::dec(i as nat) + "] "@ + item.file_path + ":"@ + text::dec(
            item.range.start as nat,
        ) + "-"@ + text::dec(item.range.end as nat) + (if item.side == Side::New {
            " [NEW]:\n"@
        } else {
            " [OLD]:\n"@
        }),
    );
    assert forall|k: int|
        0 <= k < item.findings.len() && (prompt_tells(a, i, item) || prompt_tells(b, i, item))
        implies {
        let r = (#[trigger] item.findings[k]).rationale;
        text::contains(
            a + b,
            "    - "@ + (if r.len() > 240 {
                r.take(240)
            } else {
                r
            }) + "\n"@,
        )
    } by {
        let r = item.findings[k].rationale;
        text::lemma_contains_add(
            a,
            b,
            "    - "@ + (if r.len() > 240 {
                r.take(240)
            } else {
                r
            }) + "\n"@,
        );
    }
}

proof fn lemma_item_prompt(i: usize, item: ItemView)
    ensures
        prompt_tells(item_prompt(i, item), i, item),
{
    reveal_strlit(" [");
    reveal_strlit("NEW");
    reveal_strlit("OLD");
    reveal_strlit("]:\n");
    reveal_strlit(" [NEW]:\n");
    reveal_strlit(" [OLD]:\n");
    let side = if item.side == Side::New {
        " [NEW]:\n"@
    } else {
        " [OLD]:\n"@
    };
    assert(" ["@ + side_label(item.side) + "]:\n"@ =~= side);
    let title = "["@ + text::dec(i as nat) + "] "@ + item.file_path + ":"@ + text::dec(
        item.range.start as nat,
    ) + "-"@ + text::dec(item.range.end as nat) + side;
    let lines = rationale_lines(item.findings);
    assert(item_prompt(i, item) =~= title + lines);
    text::lemma_contains_itself(title);
    text::lemma_contains_add(title, lines, title);
    assert forall|k: int| 0 <= k < item.findings.len() implies {
        let r = (#[trigger] item.findings[k]).rationale;
        text::contains(
            item_prompt(i, item),
            "    - "@ + (if r.len() > 240 {
                r.take(240)
            } else {
                r
            }) + "\n"@,
        )
    } by {
        let p = "    - "@ + shortened(item.findings[k].rationale, 240) + "\n"@;
        lemma_rationale_line(item.findings, k);
        text::lemma_contains_add(title, lines, p);
    }
}

proof fn lemma_item_prompts(items: Seq<ItemView>, ids: Seq<usize>, k: int)
    requires
        0 <= k < ids.len(),
    ensures
        prompt_tells(item_prompts(items, ids), ids[k], items[ids[k] as int]),
    decreases ids.len(),
{
    if k < ids.len() - 1 {
        lemma_item_prompts(items, ids.drop_last(), k);
    } else {
        lemma_item_prompt(ids[k], items[ids[k] as int]);
    }
    lemma_tells_more(
        item_prompts(items, ids.drop_last()),
        item_prompt(ids.last(), items[ids.last() as int]),
        ids[k],
        items[ids[k] as int],
    );
}

/// A model is asked which items belong together exactly where two or more are not
/// skipped, and it is told of each of them.
pub proof fn law_model_is_told_of_items(config: LlmConfig, items: Seq<ItemView>, i: int)
    requires
        0 <= i < items.len() <= usize::MAX,
        eligible_of(items).contains(i as usize),
    ensures
        consolidation_request_of(config, items) is Some <==> eligible_of(items).len() >= 2,
        consolidation_request_of(config, items) matches Some(q) ==> {
            let prompt = consolidation_prompt(items, eligible_of(items));
            &&& prompt_tells(prompt, i as usize, items[i])
            &&& q == llm::request_of(config, 4096, CONSOLIDATION_SYSTEM_PROMPT@, prompt)
        },
{
    let ids = eligible_of(items);
    let k = ids.index_of(i as usize);
    lemma_item_prompts(items, ids, k);
    lemma_tells_more("Findings:\n"@, item_prompts(items, ids), i as usize, items[i]);
    lemma_tells_more(
        "Findings:\n"@ + item_prompts(items, ids),
        GROUP_FORMAT@,
        i as usize,
        items[i],
    );
}

// --- items stay in order -------------------------------------------------

proof fn lemma_merging_grows(
    items: Seq<ItemView>,
    groups: Seq<GroupView>,
    provider: LlmProvider,
    model: Seq<char>,
    n: nat,
    m: nat,
)
    requires
        n <= m <= items.len(),
    ensures
        merging(items, groups, provider, model, n).out.is_prefix_of(
            merging(items, groups, provider, model, m).out,
        ),
    decreases m,
{
    let a = merging(items, groups, provider, model, n).out;
    let c = merging(items, groups, provider, model, m).out;
    if n == m {
        assert(a =~= c.subrange(0, a.len() as int));
    } else {
        lemma_merging_grows(items, groups, provider, model, n, (m - 1) as nat);
        let b = merging(items, groups, provider, model, (m - 1) as nat).out;
        assert(a =~= c.subrange(0, a.len() as int));
    }
}

/// Items that are in no group stay as they are, and in their order.
pub proof fn law_items_stay_in_order(
    items: Seq<ItemView>,
    groups: Seq<GroupView>,
    provider: LlmProvider,
    model: Seq<char>,
    i: int,
    j: int,
)
    requires
        0 <= i < j < items.len() <= usize::MAX,
        !claimed(groups, i as usize),
        !claimed(groups, j as usize),
    ensures
        exists|a: int, b: int|
            0 <= a < b < merged(items, groups, provider, model).len() && #[trigger] merged(
                items,
                groups,
                provider,
                model,
            )[a] == items[i] && #[trigger] merged(items, groups, provider, model)[b] == items[j],
{
    let out = merged(items, groups, provider, model);
    let x = merging(items, groups, provider, model, i as nat).out;
    let y = merging(items, groups, provider, model, (i + 1) as nat).out;
    let z = merging(items, groups, provider, model, j as nat).out;
    let w = merging(items, groups, provider, model, (j + 1) as nat).out;
    lemma_group_index_is(groups, i as usize);
    lemma_group_index_is(groups, j as usize);
    let g: int = group_index(groups, i as usize) as int;
    let h: int = group_index(groups, j as usize) as int;
    if g < groups.len() {
        assert(groups[g].ids.contains(i as usize));
    }
    if h < groups.len() {
        assert(groups[h].ids.contains(j as usize));
    }
    assert(y =~= x.push(items[i]));
    assert(w =~= z.push(items[j]));
    lemma_merging_grows(items, groups, provider, model, (i + 1) as nat, j as nat);
    lemma_merging_grows(items, groups, provider, model, (i + 1) as nat, items.len());
    lemma_merging_grows(items, groups, provider, model, (j + 1) as nat, items.len());
    let a = x.len() as int;
    let b = z.len() as int;
    assert(y[a] == items[i] && out[a] == y[a]);
    assert(w[b] == items[j] && out[b] == w[b]);
}

} // verus!
